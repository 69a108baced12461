//! Global properties of the pipeline: the safe/dangerous partition of the
//! ingredient universe, the bijectivity of resolutions, the behaviour of the
//! reducer on already-resolved maps, and the order independence of the
//! rendered output.
use vstd::prelude::*;

use crate::candidates::candidate_set;
use crate::food::Food;
use crate::food::allergen_universe;
use crate::food::declared;
use crate::food::food_declares;
use crate::food::food_has_ingredient;
use crate::food::ingredient_universe;
use crate::names::lex_leq;
use crate::names::lemma_lex_antisym;
use crate::names::lemma_lex_total;
use crate::names::name_set;
use crate::reduce::complete_resolution;
use crate::reduce::ings_of;
use crate::reduce::map_model;
use crate::reduce::resolved_outcome;
use crate::reduce::is_singleton_of;
use crate::reduce::resolved_at;
use crate::reduce::resolves_key;
use crate::reduce::stuck_resolution;
use crate::reduce::valid_resolution;
use crate::render::joined;
use crate::render::sorted_pairs;
use crate::safe::dangerous_set;
use crate::safe::safe_set;

verus! {

broadcast use vstd::seq_lib::group_to_multiset_ensures;

/// The safe and dangerous ingredients partition the ingredient universe:
/// together they cover it, and no ingredient is both.
pub proof fn lemma_safe_dangerous_partition(foods: Seq<Food>)
    ensures
        safe_set(foods).union(dangerous_set(foods)) == ingredient_universe(foods),
        safe_set(foods).intersect(dangerous_set(foods)) == Set::<Seq<u8>>::empty(),
{
    assert forall|n: Seq<u8>| dangerous_set(foods).contains(n) implies ingredient_universe(
        foods,
    ).contains(n) by {
        let a = choose|a: Seq<u8>| #[trigger]
            allergen_universe(foods).contains(a) && candidate_set(foods, a).contains(n);
        assert(declared(foods, a));
        let k = choose|k: int| 0 <= k < foods.len() && food_declares(#[trigger] foods[k], a);
        assert(food_has_ingredient(foods[k], n));
    }
    assert(safe_set(foods).union(dangerous_set(foods)) =~= ingredient_universe(foods));
    assert(safe_set(foods).intersect(dangerous_set(foods)) =~= Set::<Seq<u8>>::empty());
}

/// A valid resolution is a bijection: no allergen and no ingredient appears
/// in two pairs.
pub proof fn lemma_resolution_bijective(
    cm: Seq<(Seq<u8>, Set<Seq<u8>>)>,
    pairs: Seq<(Seq<u8>, Seq<u8>)>,
)
    requires
        valid_resolution(cm, pairs),
    ensures
        forall|k1: int, k2: int| 0 <= k1 < k2 < pairs.len() ==> pairs[k1].0 != pairs[k2].0,
        forall|k1: int, k2: int| 0 <= k1 < k2 < pairs.len() ==> pairs[k1].1 != pairs[k2].1,
{
    assert forall|k1: int, k2: int| 0 <= k1 < k2 < pairs.len() implies pairs[k1].1
        != pairs[k2].1 by {
        assert(resolved_at(cm, pairs, k2));
        let i = choose|i: int|
            0 <= i < cm.len() && cm[i].0 == pairs[k2].0 && is_singleton_of(
                cm[i].1.difference(ings_of(pairs.take(k2))),
                pairs[k2].1,
            );
        assert(!ings_of(pairs.take(k2)).contains(pairs[k2].1));
        assert(pairs.take(k2)[k1] == pairs[k1]);
        assert(ings_of(pairs.take(k2)).contains(pairs[k1].1));
    }
}

/// When every allergen of a map resolves, the resolution uses at least one
/// pair per allergen.
proof fn lemma_resolved_keys_len(cm: Seq<(Seq<u8>, Set<Seq<u8>>)>, gp: Seq<(Seq<u8>, Seq<u8>)>)
    requires
        forall|i: int, j: int| 0 <= i < j < cm.len() ==> cm[i].0 != cm[j].0,
        forall|i: int| 0 <= i < cm.len() ==> resolves_key(gp, #[trigger] cm[i].0),
    ensures
        gp.len() >= cm.len(),
    decreases cm.len(),
{
    if cm.len() > 0 {
        assert(resolves_key(gp, cm.last().0));
        let k = choose|k: int| 0 <= k < gp.len() && gp[k].0 == cm.last().0;
        let gp2 = gp.remove(k);
        assert forall|i: int| 0 <= i < cm.drop_last().len() implies resolves_key(
            gp2,
            #[trigger] cm.drop_last()[i].0,
        ) by {
            assert(cm.drop_last()[i] == cm[i]);
            assert(resolves_key(gp, cm[i].0));
            let w = choose|w: int| 0 <= w < gp.len() && gp[w].0 == cm[i].0;
            assert(cm[i].0 != cm.last().0);
            if w < k {
                assert(gp2[w] == gp[w]);
            } else {
                assert(w > k);
                assert(gp2[w - 1] == gp[w]);
            }
        }
        lemma_resolved_keys_len(cm.drop_last(), gp2);
    }
}

/// Every candidate set of the map is a singleton and no two entries hold the
/// same ingredient: a map that a successful reduction leaves behind.
pub open spec fn fully_resolved_map(cm: Seq<(Seq<u8>, Set<Seq<u8>>)>) -> bool {
    &&& forall|i: int, j: int| 0 <= i < j < cm.len() ==> cm[i].0 != cm[j].0
    &&& forall|i: int| 0 <= i < cm.len() ==> exists|x: Seq<u8>|
        is_singleton_of(#[trigger] cm[i].1, x)
    &&& forall|i: int, j: int| 0 <= i < j < cm.len() ==> cm[i].1 != cm[j].1
}

/// Reducing a fully resolved map cannot fail: no partial resolution of it is
/// ever stuck.
pub proof fn lemma_fully_resolved_never_stuck(cm: Seq<(Seq<u8>, Set<Seq<u8>>)>)
    requires
        fully_resolved_map(cm),
    ensures
        forall|gp: Seq<(Seq<u8>, Seq<u8>)>| !stuck_resolution(cm, gp),
{
    assert forall|gp: Seq<(Seq<u8>, Seq<u8>)>| !stuck_resolution(cm, gp) by {
        if stuck_resolution(cm, gp) {
            // some allergen is unresolved, else gp would cover the whole map
            let iu = choose|iu: int|
                0 <= iu < cm.len() && !resolves_key(gp, #[trigger] cm[iu].0);
            assert(exists|iu2: int| 0 <= iu2 < cm.len() && !resolves_key(gp, #[trigger] cm[iu2].0))
                by {
                if forall|i: int| 0 <= i < cm.len() ==> resolves_key(gp, #[trigger] cm[i].0) {
                    lemma_resolved_keys_len(cm, gp);
                }
            }
            let x = choose|x: Seq<u8>| is_singleton_of(cm[iu].1, x);
            // no resolved ingredient is the singleton of an unresolved entry
            assert(!ings_of(gp).contains(x)) by {
                if ings_of(gp).contains(x) {
                    let k = choose|k: int| 0 <= k < gp.len() && gp[k].1 == x;
                    assert(resolved_at(cm, gp, k));
                    let j = choose|j: int|
                        0 <= j < cm.len() && cm[j].0 == gp[k].0 && is_singleton_of(
                            cm[j].1.difference(ings_of(gp.take(k))),
                            gp[k].1,
                        );
                    assert(cm[j].1.contains(x));
                    let xj = choose|xj: Seq<u8>| is_singleton_of(#[trigger] cm[j].1, xj);
                    assert(xj == x);
                    assert(j != iu);
                    assert(cm[iu].1 =~= cm[j].1);
                }
            }
            assert(is_singleton_of(cm[iu].1.difference(ings_of(gp)), x)) by {
                assert(cm[iu].1.difference(ings_of(gp)).contains(x));
            }
            assert(false);
        }
    }
}

/// The set of pairs a resolution holds, ignoring their order.
pub open spec fn pair_set(p: Seq<(Seq<u8>, Seq<u8>)>) -> Set<(Seq<u8>, Seq<u8>)> {
    Set::new(|pr: (Seq<u8>, Seq<u8>)| exists|k: int| 0 <= k < p.len() && p[k] == pr)
}

/// On a fully resolved map the reducer's answer is forced: every complete
/// resolution pairs each allergen with its entry's single ingredient, so any
/// two complete resolutions hold the same pairs. Reducing such a map again
/// therefore reproduces the same deductions.
pub proof fn lemma_reduce_idempotent(
    cm: Seq<(Seq<u8>, Set<Seq<u8>>)>,
    p1: Seq<(Seq<u8>, Seq<u8>)>,
    p2: Seq<(Seq<u8>, Seq<u8>)>,
)
    requires
        fully_resolved_map(cm),
        complete_resolution(cm, p1),
        complete_resolution(cm, p2),
    ensures
        pair_set(p1) == pair_set(p2),
{
    lemma_canonical_pairs(cm, p1);
    lemma_canonical_pairs(cm, p2);
    assert(pair_set(p1) =~= pair_set(p2));
}

/// Every complete resolution of a fully resolved map holds exactly the pairs
/// that read each entry's singleton off.
proof fn lemma_canonical_pairs(cm: Seq<(Seq<u8>, Set<Seq<u8>>)>, p: Seq<(Seq<u8>, Seq<u8>)>)
    requires
        fully_resolved_map(cm),
        complete_resolution(cm, p),
    ensures
        forall|pr: (Seq<u8>, Seq<u8>)| #[trigger] pair_set(p).contains(pr) <==> exists|i: int|
            0 <= i < cm.len() && #[trigger] cm[i].0 == pr.0 && cm[i].1.contains(pr.1),
{
    assert forall|pr: (Seq<u8>, Seq<u8>)| #[trigger] pair_set(p).contains(pr) implies exists|
        i: int,
    | 0 <= i < cm.len() && #[trigger] cm[i].0 == pr.0 && cm[i].1.contains(pr.1) by {
        let k = choose|k: int| 0 <= k < p.len() && p[k] == pr;
        assert(resolved_at(cm, p, k));
        let i = choose|i: int|
            0 <= i < cm.len() && cm[i].0 == p[k].0 && is_singleton_of(
                cm[i].1.difference(ings_of(p.take(k))),
                p[k].1,
            );
        assert(cm[i].1.contains(pr.1));
    }
    assert forall|pr: (Seq<u8>, Seq<u8>)|
        (exists|i: int| 0 <= i < cm.len() && #[trigger] cm[i].0 == pr.0 && cm[i].1.contains(pr.1))
            implies #[trigger] pair_set(p).contains(pr) by {
        let i = choose|i: int|
            0 <= i < cm.len() && #[trigger] cm[i].0 == pr.0 && cm[i].1.contains(pr.1);
        assert(resolves_key(p, cm[i].0));
        let k = choose|k: int| 0 <= k < p.len() && p[k].0 == cm[i].0;
        assert(resolved_at(cm, p, k));
        let i2 = choose|i2: int|
            0 <= i2 < cm.len() && cm[i2].0 == p[k].0 && is_singleton_of(
                cm[i2].1.difference(ings_of(p.take(k))),
                p[k].1,
            );
        assert(i2 == i) by {
            if i2 != i {
                if i2 < i {
                    assert(cm[i2].0 != cm[i].0);
                } else {
                    assert(cm[i].0 != cm[i2].0);
                }
            }
        }
        assert(cm[i].1.contains(p[k].1));
        let x = choose|x: Seq<u8>| is_singleton_of(#[trigger] cm[i].1, x);
        assert(p[k].1 == x && pr.1 == x);
        assert(p[k] == pr);
    }
}

/// Any valid resolution agrees with any complete resolution of the same map:
/// an allergen both resolve is paired with the same ingredient by both.
proof fn lemma_valid_agrees_with_complete(
    cm: Seq<(Seq<u8>, Set<Seq<u8>>)>,
    gp: Seq<(Seq<u8>, Seq<u8>)>,
    p: Seq<(Seq<u8>, Seq<u8>)>,
)
    requires
        forall|i: int, j: int| 0 <= i < j < cm.len() ==> cm[i].0 != cm[j].0,
        valid_resolution(cm, gp),
        complete_resolution(cm, p),
    ensures
        forall|j: int, k: int|
            0 <= j < gp.len() && 0 <= k < p.len() && #[trigger] gp[j].0 == #[trigger] p[k].0
                ==> gp[j].1 == p[k].1,
    decreases gp.len(),
{
    lemma_resolution_bijective(cm, p);
    if gp.len() > 0 {
        let gpf = gp.drop_last();
        let jstar = gp.len() - 1;
        assert(valid_resolution(cm, gpf)) by {
            assert forall|k: int| 0 <= k < gpf.len() implies #[trigger] resolved_at(
                cm,
                gpf,
                k,
            ) by {
                assert(resolved_at(cm, gp, k));
                assert(gpf.take(k) =~= gp.take(k));
                let i = choose|i: int|
                    0 <= i < cm.len() && cm[i].0 == gp[k].0 && is_singleton_of(
                        cm[i].1.difference(ings_of(gp.take(k))),
                        gp[k].1,
                    );
                assert(cm[i].0 == gpf[k].0 && is_singleton_of(
                    cm[i].1.difference(ings_of(gpf.take(k))),
                    gpf[k].1,
                ));
            }
        }
        lemma_valid_agrees_with_complete(cm, gpf, p);
        // the last pair of gp: its allergen, its candidate entry, and the
        // pair p gives that allergen
        assert(resolved_at(cm, gp, jstar));
        let ib = choose|ib: int|
            0 <= ib < cm.len() && cm[ib].0 == gp[jstar].0 && is_singleton_of(
                cm[ib].1.difference(ings_of(gp.take(jstar))),
                gp[jstar].1,
            );
        assert(resolves_key(p, cm[ib].0));
        let kb = choose|kb: int| 0 <= kb < p.len() && p[kb].0 == cm[ib].0;
        let y = p[kb].1;
        // p's ingredient for that allergen survives gp's earlier eliminations
        assert(cm[ib].1.contains(y)) by {
            assert(resolved_at(cm, p, kb));
            let i2 = choose|i2: int|
                0 <= i2 < cm.len() && cm[i2].0 == p[kb].0 && is_singleton_of(
                    cm[i2].1.difference(ings_of(p.take(kb))),
                    p[kb].1,
                );
            assert(i2 == ib) by {
                if i2 != ib {
                    if i2 < ib {
                        assert(cm[i2].0 != cm[ib].0);
                    } else {
                        assert(cm[ib].0 != cm[i2].0);
                    }
                }
            }
            assert(cm[ib].1.difference(ings_of(p.take(kb))).contains(y));
        }
        assert(!ings_of(gp.take(jstar)).contains(y)) by {
            if ings_of(gp.take(jstar)).contains(y) {
                let t = choose|t: int| 0 <= t < gp.take(jstar).len() && gp.take(jstar)[t].1 == y;
                assert(gp[t].1 == y);
                assert(resolved_at(cm, gp, t));
                let ic = choose|ic: int|
                    0 <= ic < cm.len() && cm[ic].0 == gp[t].0 && is_singleton_of(
                        cm[ic].1.difference(ings_of(gp.take(t))),
                        gp[t].1,
                    );
                assert(resolves_key(p, cm[ic].0));
                let kc = choose|kc: int| 0 <= kc < p.len() && p[kc].0 == cm[ic].0;
                assert(gpf[t].0 == p[kc].0);
                assert(gp[t].1 == p[kc].1);
                assert(p[kc].1 == y && p[kb].1 == y);
                assert(kc == kb) by {
                    if kc != kb {
                        if kc < kb {
                            assert(p[kc].1 != p[kb].1);
                        } else {
                            assert(p[kb].1 != p[kc].1);
                        }
                    }
                }
                assert(gp[t].0 == gp[jstar].0);
                assert(false);
            }
        }
        assert(cm[ib].1.difference(ings_of(gp.take(jstar))).contains(y));
        assert(y == gp[jstar].1);
        assert forall|j: int, k: int|
            0 <= j < gp.len() && 0 <= k < p.len() && #[trigger] gp[j].0 == #[trigger] p[k].0
                implies gp[j].1 == p[k].1 by {
            if j < jstar {
                assert(gpf[j].0 == p[k].0);
            } else {
                assert(p[k].0 == cm[ib].0 && p[kb].0 == cm[ib].0);
                assert(k == kb) by {
                    if k != kb {
                        if k < kb {
                            assert(p[k].0 != p[kb].0);
                        } else {
                            assert(p[kb].0 != p[k].0);
                        }
                    }
                }
            }
        }
    }
}

/// Among the pairs of `p` whose allergen `gp` does not resolve, there is a
/// first one.
proof fn lemma_first_unresolved(gp: Seq<(Seq<u8>, Seq<u8>)>, p: Seq<(Seq<u8>, Seq<u8>)>, k0: int)
    requires
        0 <= k0 < p.len(),
        !resolves_key(gp, p[k0].0),
    ensures
        exists|ks: int|
            0 <= ks <= k0 && !resolves_key(gp, #[trigger] p[ks].0) && forall|t: int|
                0 <= t < ks ==> resolves_key(gp, #[trigger] p[t].0),
    decreases k0,
{
    if exists|t: int| 0 <= t < k0 && !resolves_key(gp, #[trigger] p[t].0) {
        let t0 = choose|t0: int| 0 <= t0 < k0 && !resolves_key(gp, #[trigger] p[t0].0);
        lemma_first_unresolved(gp, p, t0);
    } else {
        assert(0 <= k0 <= k0 && !resolves_key(gp, p[k0].0) && forall|t: int|
            0 <= t < k0 ==> resolves_key(gp, #[trigger] p[t].0));
    }
}

/// A stuck resolution and a complete resolution of the same map cannot both
/// exist: when the reducer reports the input unsolvable, no complete
/// assignment of ingredients to allergens was there to find.
pub proof fn lemma_stuck_excludes_complete(
    cm: Seq<(Seq<u8>, Set<Seq<u8>>)>,
    gp: Seq<(Seq<u8>, Seq<u8>)>,
    p: Seq<(Seq<u8>, Seq<u8>)>,
)
    requires
        forall|i: int, j: int| 0 <= i < j < cm.len() ==> cm[i].0 != cm[j].0,
        stuck_resolution(cm, gp),
    ensures
        !complete_resolution(cm, p),
{
    if complete_resolution(cm, p) {
        lemma_stuck_complete_contradiction(cm, gp, p);
    }
}

/// The contradiction behind the exclusion: assuming both resolutions exist,
/// the first allergen of the complete one that the stuck one leaves
/// unresolved still has a singleton candidate set.
proof fn lemma_stuck_complete_contradiction(
    cm: Seq<(Seq<u8>, Set<Seq<u8>>)>,
    gp: Seq<(Seq<u8>, Seq<u8>)>,
    p: Seq<(Seq<u8>, Seq<u8>)>,
)
    requires
        forall|i: int, j: int| 0 <= i < j < cm.len() ==> cm[i].0 != cm[j].0,
        stuck_resolution(cm, gp),
        complete_resolution(cm, p),
    ensures
        !stuck_resolution(cm, gp),
{
    lemma_valid_agrees_with_complete(cm, gp, p);
    lemma_resolution_bijective(cm, p);
    // some allergen is unresolved by gp, and p pairs it somewhere
    assert(exists|i: int| 0 <= i < cm.len() && !resolves_key(gp, #[trigger] cm[i].0)) by {
        if forall|i: int| 0 <= i < cm.len() ==> resolves_key(gp, #[trigger] cm[i].0) {
            lemma_resolved_keys_len(cm, gp);
        }
    }
    let iu = choose|iu: int| 0 <= iu < cm.len() && !resolves_key(gp, #[trigger] cm[iu].0);
    assert(resolves_key(p, cm[iu].0));
    let k0 = choose|k0: int| 0 <= k0 < p.len() && p[k0].0 == cm[iu].0;
    lemma_first_unresolved(gp, p, k0);
    let ks = choose|ks: int|
        0 <= ks <= k0 && !resolves_key(gp, #[trigger] p[ks].0) && forall|t: int|
            0 <= t < ks ==> resolves_key(gp, #[trigger] p[t].0);
    let x = p[ks].1;
    assert(resolved_at(cm, p, ks));
    let ia = choose|ia: int|
        0 <= ia < cm.len() && cm[ia].0 == p[ks].0 && is_singleton_of(
            cm[ia].1.difference(ings_of(p.take(ks))),
            p[ks].1,
        );
    // that allergen's remaining candidates under gp are exactly {x}
    assert(!ings_of(gp).contains(x)) by {
        if ings_of(gp).contains(x) {
            let t = choose|t: int| 0 <= t < gp.len() && gp[t].1 == x;
            assert(resolved_at(cm, gp, t));
            let ic = choose|ic: int|
                0 <= ic < cm.len() && cm[ic].0 == gp[t].0 && is_singleton_of(
                    cm[ic].1.difference(ings_of(gp.take(t))),
                    gp[t].1,
                );
            assert(resolves_key(p, cm[ic].0));
            let kc = choose|kc: int| 0 <= kc < p.len() && p[kc].0 == cm[ic].0;
            assert(gp[t].0 == p[kc].0);
            assert(gp[t].1 == p[kc].1);
            assert(kc == ks) by {
                if kc != ks {
                    if kc < ks {
                        assert(p[kc].1 != p[ks].1);
                    } else {
                        assert(p[ks].1 != p[kc].1);
                    }
                }
            }
            assert(resolves_key(gp, p[ks].0));
            assert(false);
        }
    }
    assert(is_singleton_of(cm[ia].1.difference(ings_of(gp)), x)) by {
        assert(cm[ia].1.difference(ings_of(p.take(ks))).contains(x));
        assert(cm[ia].1.difference(ings_of(gp)).contains(x));
        assert forall|y: Seq<u8>| cm[ia].1.difference(ings_of(gp)).contains(y) implies y == x by {
            assert(!ings_of(p.take(ks)).contains(y)) by {
                if ings_of(p.take(ks)).contains(y) {
                    let t = choose|t: int| 0 <= t < p.take(ks).len() && p.take(ks)[t].1 == y;
                    assert(p[t].1 == y);
                    assert(resolves_key(gp, p[t].0));
                    let jt = choose|jt: int| 0 <= jt < gp.len() && gp[jt].0 == p[t].0;
                    assert(gp[jt].1 == p[t].1);
                    assert(ings_of(gp).contains(y));
                    assert(false);
                }
            }
            assert(cm[ia].1.difference(ings_of(p.take(ks))).contains(y));
        }
    }
    assert(!resolves_key(gp, cm[ia].0));
    assert(false);
}

/// A successful reduction of a fully resolved map changes nothing: every
/// entry still holds exactly the names it held before.
pub proof fn lemma_reduce_preserves_resolved_map(
    orig: Seq<(Vec<u8>, Vec<Vec<u8>>)>,
    now: Seq<(Vec<u8>, Vec<Vec<u8>>)>,
    pairs: Seq<(Seq<u8>, Seq<u8>)>,
)
    requires
        fully_resolved_map(map_model(orig)),
        resolved_outcome(orig, now, pairs),
        now.len() == orig.len(),
    ensures
        forall|i: int| 0 <= i < orig.len() ==> name_set(#[trigger] now[i].1@) == name_set(
            orig[i].1@,
        ),
{
    let cm = map_model(orig);
    assert forall|i: int| 0 <= i < orig.len() implies name_set(#[trigger] now[i].1@) == name_set(
        orig[i].1@,
    ) by {
        let k = choose|k: int|
            0 <= k < pairs.len() && #[trigger] pairs[k].0 == orig[i].0@ && is_singleton_of(
                name_set(now[i].1@),
                pairs[k].1,
            );
        assert(resolved_at(cm, pairs, k));
        let i2 = choose|i2: int|
            0 <= i2 < cm.len() && cm[i2].0 == pairs[k].0 && is_singleton_of(
                cm[i2].1.difference(ings_of(pairs.take(k))),
                pairs[k].1,
            );
        assert(i2 == i) by {
            if i2 != i {
                if i2 < i {
                    assert(cm[i2].0 != cm[i].0);
                } else {
                    assert(cm[i].0 != cm[i2].0);
                }
            }
        }
        assert(cm[i].1.contains(pairs[k].1));
        let x = choose|x: Seq<u8>| is_singleton_of(#[trigger] cm[i].1, x);
        assert(pairs[k].1 == x);
        assert(cm[i].1 == name_set(orig[i].1@));
        assert(name_set(now[i].1@) =~= name_set(orig[i].1@));
    }
}

/// Two sorted renderings of the same pairs coincide: the output order depends
/// only on the allergen names, never on the order the pairs arrived in.
pub proof fn lemma_render_order_independent(
    p1: Seq<(Seq<u8>, Seq<u8>)>,
    p2: Seq<(Seq<u8>, Seq<u8>)>,
)
    requires
        p1.to_multiset() == p2.to_multiset(),
        sorted_pairs(p1),
        sorted_pairs(p2),
        forall|k1: int, k2: int| 0 <= k1 < k2 < p1.len() ==> p1[k1].0 != p1[k2].0,
    ensures
        p1 == p2,
        joined(p1) == joined(p2),
    decreases p1.len(),
{
    p1.to_multiset_ensures();
    p2.to_multiset_ensures();
    assert(p1.len() == p2.len());
    if p1.len() == 0 {
        assert(p1 =~= p2);
    } else {
        assert(p1.contains(p1[0]));
        assert(p1.to_multiset().count(p1[0]) > 0);
        assert(p2.contains(p1[0]));
        let j = choose|j: int| 0 <= j < p2.len() && p2[j] == p1[0];
        assert(p2.contains(p2[0]));
        assert(p1.to_multiset().count(p2[0]) > 0);
        assert(p1.contains(p2[0]));
        let m = choose|m: int| 0 <= m < p1.len() && p1[m] == p2[0];
        assert(lex_leq(p1[0].0, p2[0].0)) by {
            if m == 0 {
                lemma_lex_total(p1[0].0, p1[0].0);
            }
        }
        assert(lex_leq(p2[0].0, p1[0].0)) by {
            if j == 0 {
                lemma_lex_total(p2[0].0, p2[0].0);
            }
        }
        lemma_lex_antisym(p1[0].0, p2[0].0);
        assert(m == 0) by {
            if m > 0 {
                assert(p1[0].0 != p1[m].0);
            }
        }
        assert(p1[0] == p2[0]);
        let t1 = p1.drop_first();
        let t2 = p2.drop_first();
        assert(t1 =~= p1.remove(0));
        assert(t2 =~= p2.remove(0));
        assert(t1.to_multiset() == t2.to_multiset()) by {
            assert(p1.remove(0).to_multiset() =~= p1.to_multiset().remove(p1[0]));
            assert(p2.remove(0).to_multiset() =~= p2.to_multiset().remove(p2[0]));
        }
        assert forall|k1: int, k2: int| 0 <= k1 < k2 < t1.len() implies lex_leq(
            #[trigger] t1[k1].0,
            #[trigger] t1[k2].0,
        ) && t1[k1].0 != t1[k2].0 by {
            assert(t1[k1] == p1[k1 + 1] && t1[k2] == p1[k2 + 1]);
        }
        assert forall|k1: int, k2: int| 0 <= k1 < k2 < t2.len() implies lex_leq(
            #[trigger] t2[k1].0,
            #[trigger] t2[k2].0,
        ) by {
            assert(t2[k1] == p2[k1 + 1] && t2[k2] == p2[k2 + 1]);
        }
        lemma_render_order_independent(t1, t2);
        assert(p1 =~= p2) by {
            assert forall|k: int| 0 <= k < p1.len() implies p1[k] == p2[k] by {
                if k > 0 {
                    assert(t1[k - 1] == t2[k - 1]);
                }
            }
        }
    }
}

} // verus!
