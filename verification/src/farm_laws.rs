//! Properties of farm bookkeeping that span several operations.
use crate::farms::{
    expired_entries, farm_expired, farm_id_index, farmer_position, farmer_updated, farms_by_id,
    first_unused, keys_of, lemma_farm_id_index, lemma_farmer_position, lemma_farms_by_id_indices,
    lemma_first_unused, lemma_keys_of_insert, lemma_same_keys, needs_farms, old_indices,
    refresh_fold, refresh_prefix, touched_entries, touched_farm, unexpired_entries, used_indices, FarmSlot,
    InsertResultView, KnownFarm, KnownFarmer, KnownFarms,
};
use crate::ids::{Blake3Hash, ClusterFarmerFarmDetails, FarmId, FarmIndex, FarmerId};
use crate::index_map::{entries_insert, has_key, key_index, lemma_key_index};
use vstd::prelude::*;

verus! {

/// No farm index is used by two different farmers.
pub open spec fn indices_disjoint(farmers: Seq<KnownFarmer>) -> bool {
    forall|a: int, b: int|
        0 <= a < farmers.len() && 0 <= b < farmers.len() && a != b ==> keys_of(
            #[trigger] farmers[a].known_farms.entries(),
        ).disjoint(keys_of(#[trigger] farmers[b].known_farms.entries()))
}

/// Farms handled after a fingerprint change take no index of another
/// farmer, given that the farmer's previous farms took none.
pub proof fn lemma_refresh_prefix_indices(
    old: Seq<(FarmId, FarmIndex, KnownFarm)>,
    others: Set<FarmIndex>,
    now: u64,
    ds: Seq<ClusterFarmerFarmDetails>,
    n: int,
)
    requires
        0 <= n <= ds.len(),
        forall|j: int| 0 <= j < old.len() ==> !others.contains(#[trigger] old[j].1),
    ensures
        keys_of(refresh_prefix(old, others, now, ds, n).1).disjoint(others),
        forall|j: int| 0 <= j < refresh_prefix(old, others, now, ds, n).0.len() ==> !others.contains(
            #[trigger] refresh_prefix(old, others, now, ds, n).0[j].1,
        ),
    decreases n,
{
    if n <= 0 {
        assert(keys_of(Seq::<(FarmIndex, FarmSlot)>::empty()) =~= Set::<FarmIndex>::empty());
    } else {
        let st = refresh_prefix(old, others, now, ds, n - 1);
        lemma_refresh_prefix_indices(old, others, now, ds, n - 1);
        let d = ds[n - 1];
        let j = farm_id_index(st.0, d.farm_id);
        lemma_farm_id_index(st.0, d.farm_id);
        if j >= 0 {
            let index = st.0[j].1;
            lemma_keys_of_insert(st.1, index, FarmSlot::Kept(touched_farm(st.0[j].2, now)));
            lemma_keys_of_insert(st.1, index, FarmSlot::Fresh(st.0[j].2.farm_id, d.fingerprint, now));
            let rest = st.0.remove(j);
            assert forall|q: int| 0 <= q < rest.len() implies !others.contains(#[trigger] rest[q].1) by {
                if q < j {
                    assert(rest[q] == st.0[q]);
                } else {
                    assert(rest[q] == st.0[q + 1]);
                }
            }
        } else {
            let used = others.union(keys_of(st.1));
            lemma_first_unused(used);
            match first_unused(used) {
                Some(i) => {
                    lemma_keys_of_insert(st.1, i, FarmSlot::Fresh(d.farm_id, d.fingerprint, now));
                },
                None => {},
            }
        }
    }
}

/// Farms handled after a fingerprint change, or of a new farmer, take no
/// index of another farmer, given that the farmer's previous farms took none.
pub proof fn lemma_refresh_fold_indices(
    old: Seq<(FarmId, FarmIndex, KnownFarm)>,
    others: Set<FarmIndex>,
    now: u64,
    ds: Seq<ClusterFarmerFarmDetails>,
)
    requires
        forall|j: int| 0 <= j < old.len() ==> !others.contains(#[trigger] old[j].1),
    ensures
        keys_of(refresh_fold(old, others, now, ds).1).disjoint(others),
{
    lemma_refresh_prefix_indices(old, others, now, ds, ds.len() as int);
}

/// A farmer update leaves no farm index shared between two farmers.
pub proof fn lemma_update_farmer_keeps_indices_disjoint(
    old: KnownFarms,
    new: KnownFarms,
    farmer_id: FarmerId,
    fingerprint: Blake3Hash,
    now: u64,
    farms: Option<Seq<ClusterFarmerFarmDetails>>,
    res: Seq<InsertResultView>,
)
    requires
        old.wf(),
        indices_disjoint(old.farmers()),
        farmer_updated(old, new, farmer_id, fingerprint, now, farms, res),
    ensures
        indices_disjoint(new.farmers()),
{
    let p = farmer_position(old.farmers(), farmer_id);
    let of = old.farmers();
    let nf = new.farmers();
    lemma_farmer_position(of, farmer_id);
    if p >= 0 {
        let others = of.remove(p);
        let others_used = used_indices(others);
        // the keys of the updated farmer avoid every other farmer's keys
        assert(keys_of(nf[p].known_farms.entries()).disjoint(others_used)) by {
            let farmer = of[p];
            if farmer.fingerprint@ == fingerprint@ {
                lemma_same_keys(farmer.known_farms.entries(), nf[p].known_farms.entries());
                assert forall|k: FarmIndex| keys_of(farmer.known_farms.entries()).contains(k) implies !others_used.contains(k) by {
                    if others_used.contains(k) {
                        let g = choose|g: int| 0 <= g < others.len() && has_key(#[trigger] others[g].known_farms.entries(), k);
                        let b = if g < p { g } else { g + 1 };
                        assert(others[g] == of[b]);
                        assert(keys_of(of[p].known_farms.entries()).disjoint(keys_of(of[b].known_farms.entries())));
                        assert(keys_of(of[b].known_farms.entries()).contains(k));
                    }
                }
            } else {
                match farms {
                    None => {
                        assert(keys_of(nf[p].known_farms.entries()) =~= Set::<FarmIndex>::empty());
                    },
                    Some(ds) => {
                        let start = farms_by_id(farmer.known_farms.entries());
                        lemma_farms_by_id_indices(farmer.known_farms.entries());
                        assert forall|j: int| 0 <= j < start.len() implies !others_used.contains(#[trigger] start[j].1) by {
                            let k = start[j].1;
                            assert(keys_of(farmer.known_farms.entries()).contains(k));
                            if others_used.contains(k) {
                                let g = choose|g: int| 0 <= g < others.len() && has_key(#[trigger] others[g].known_farms.entries(), k);
                                let b = if g < p { g } else { g + 1 };
                                assert(others[g] == of[b]);
                                assert(keys_of(of[p].known_farms.entries()).disjoint(keys_of(of[b].known_farms.entries())));
                                assert(keys_of(of[b].known_farms.entries()).contains(k));
                            }
                        }
                        lemma_refresh_fold_indices(start, others_used, now, ds);
                        lemma_same_keys(nf[p].known_farms.entries(), refresh_fold(start, others_used, now, ds).1);
                    },
                }
            }
        }
        assert forall|a: int, b: int|
            0 <= a < nf.len() && 0 <= b < nf.len() && a != b implies keys_of(
                #[trigger] nf[a].known_farms.entries(),
            ).disjoint(keys_of(#[trigger] nf[b].known_farms.entries())) by {
            if a != p && b != p {
                assert(nf[a] == of[a]);
                assert(nf[b] == of[b]);
            } else {
                let o = if a == p { b } else { a };
                assert(nf[o] == of[o]);
                let g = if o < p { o } else { o - 1 };
                assert(others[g] == of[o]);
                assert forall|k: FarmIndex| keys_of(nf[o].known_farms.entries()).contains(k) implies others_used.contains(k) by {
                    assert(has_key(others[g].known_farms.entries(), k));
                }
            }
        }
    } else {
        match farms {
            None => {},
            Some(ds) => {
                let st = refresh_fold(Seq::empty(), used_indices(of), now, ds);
                lemma_refresh_fold_indices(Seq::empty(), used_indices(of), now, ds);
                let added = nf[of.len() as int];
                lemma_same_keys(added.known_farms.entries(), st.1);
                assert forall|a: int, b: int|
                    0 <= a < nf.len() && 0 <= b < nf.len() && a != b implies keys_of(
                        #[trigger] nf[a].known_farms.entries(),
                    ).disjoint(keys_of(#[trigger] nf[b].known_farms.entries())) by {
                    if a < of.len() && b < of.len() {
                        assert(nf[a] == of[a]);
                        assert(nf[b] == of[b]);
                    } else {
                        let o = if a == of.len() { b } else { a };
                        assert(nf[o] == of[o]);
                        assert forall|k: FarmIndex| keys_of(added.known_farms.entries()).contains(k) implies !keys_of(of[o].known_farms.entries()).contains(k) by {
                            if keys_of(of[o].known_farms.entries()).contains(k) {
                                assert(used_indices(of).contains(k));
                            }
                        }
                    }
                }
            },
        }
    }
}

/// Results of handling announced farms after a fingerprint change all ask
/// for the farm to be added, and ask for a removal first only at an index of
/// one of the farmer's previous farms.
pub proof fn lemma_refresh_prefix_results(
    old: Seq<(FarmId, FarmIndex, KnownFarm)>,
    others: Set<FarmIndex>,
    now: u64,
    ds: Seq<ClusterFarmerFarmDetails>,
    n: int,
)
    requires
        0 <= n <= ds.len(),
    ensures
        old_indices(refresh_prefix(old, others, now, ds, n).0).subset_of(old_indices(old)),
        forall|i: int| 0 <= i < refresh_prefix(old, others, now, ds, n).2.len() ==> (#[trigger] refresh_prefix(old, others, now, ds, n).2[i]).2,
        forall|i: int| 0 <= i < refresh_prefix(old, others, now, ds, n).2.len() && (#[trigger] refresh_prefix(old, others, now, ds, n).2[i]).3
            ==> old_indices(old).contains(refresh_prefix(old, others, now, ds, n).2[i].0),
    decreases n,
{
    if n > 0 {
        let st = refresh_prefix(old, others, now, ds, n - 1);
        lemma_refresh_prefix_results(old, others, now, ds, n - 1);
        let d = ds[n - 1];
        let j = farm_id_index(st.0, d.farm_id);
        lemma_farm_id_index(st.0, d.farm_id);
        let nx = refresh_prefix(old, others, now, ds, n);
        if j >= 0 {
            let rest = st.0.remove(j);
            assert(nx.0 == rest);
            assert forall|x: FarmIndex| old_indices(rest).contains(x) implies old_indices(st.0).contains(x) by {
                let q = choose|q: int| 0 <= q < rest.len() && #[trigger] rest[q].1 == x;
                if q < j {
                    assert(rest[q] == st.0[q]);
                } else {
                    assert(rest[q] == st.0[q + 1]);
                }
            }
            assert(old_indices(st.0).contains(st.0[j].1));
            assert forall|i: int| 0 <= i < nx.2.len() && (#[trigger] nx.2[i]).3 implies old_indices(old).contains(nx.2[i].0) by {
                if i < st.2.len() {
                    assert(nx.2[i] == st.2[i]);
                }
            }
            assert forall|i: int| 0 <= i < nx.2.len() implies (#[trigger] nx.2[i]).2 by {
                if i < st.2.len() {
                    assert(nx.2[i] == st.2[i]);
                }
            }
        } else {
            assert(nx.0 == st.0);
            assert forall|i: int| 0 <= i < nx.2.len() && (#[trigger] nx.2[i]).3 implies old_indices(old).contains(nx.2[i].0) by {
                if i < st.2.len() {
                    assert(nx.2[i] == st.2[i]);
                }
            }
            assert forall|i: int| 0 <= i < nx.2.len() implies (#[trigger] nx.2[i]).2 by {
                if i < st.2.len() {
                    assert(nx.2[i] == st.2[i]);
                }
            }
        }
    }
}

/// The same for all announced farms.
pub proof fn lemma_refresh_fold_results(
    old: Seq<(FarmId, FarmIndex, KnownFarm)>,
    others: Set<FarmIndex>,
    now: u64,
    ds: Seq<ClusterFarmerFarmDetails>,
)
    ensures
        forall|i: int| 0 <= i < refresh_fold(old, others, now, ds).2.len() ==> (#[trigger] refresh_fold(old, others, now, ds).2[i]).2,
        forall|i: int| 0 <= i < refresh_fold(old, others, now, ds).2.len() && (#[trigger] refresh_fold(old, others, now, ds).2[i]).3
            ==> old_indices(old).contains(refresh_fold(old, others, now, ds).2[i].0),
{
    lemma_refresh_prefix_results(old, others, now, ds, ds.len() as int);
}

/// Every farm a farmer update returns is to be added; one is to be removed
/// first only when its index held one of that farmer's farms before.
pub proof fn lemma_update_farmer_results(
    old: KnownFarms,
    new: KnownFarms,
    farmer_id: FarmerId,
    fingerprint: Blake3Hash,
    now: u64,
    farms: Option<Seq<ClusterFarmerFarmDetails>>,
    res: Seq<InsertResultView>,
)
    requires
        farmer_updated(old, new, farmer_id, fingerprint, now, farms, res),
    ensures
        forall|i: int| 0 <= i < res.len() ==> (#[trigger] res[i]).2,
        forall|i: int| 0 <= i < res.len() && (#[trigger] res[i]).3 ==> {
            let p = farmer_position(old.farmers(), farmer_id);
            p >= 0 && keys_of(old.farmers()[p].known_farms.entries()).contains(res[i].0)
        },
{
    let p = farmer_position(old.farmers(), farmer_id);
    if p >= 0 {
        let farmer = old.farmers()[p];
        if farmer.fingerprint@ != fingerprint@ {
            match farms {
                None => {},
                Some(ds) => {
                    let e = farmer.known_farms.entries();
                    let start = farms_by_id(e);
                    let others = used_indices(old.farmers().remove(p));
                    lemma_refresh_fold_results(start, others, now, ds);
                    lemma_farms_by_id_indices(e);
                    assert forall|i: int| 0 <= i < res.len() && (#[trigger] res[i]).3 implies keys_of(e).contains(res[i].0) by {
                        assert(old_indices(start).contains(res[i].0));
                        let k = choose|k: int| 0 <= k < start.len() && #[trigger] start[k].1 == res[i].0;
                        assert(keys_of(e).contains(start[k].1));
                    }
                },
            }
        }
    } else {
        match farms {
            None => {},
            Some(ds) => {
                let none = Seq::<(FarmId, FarmIndex, KnownFarm)>::empty();
                lemma_refresh_fold_results(none, used_indices(old.farmers()), now, ds);
                assert forall|q: int| 0 <= q < res.len() implies !(#[trigger] res[q]).3 by {
                    if res[q].3 {
                        assert(old_indices(none).contains(res[q].0));
                        let k = choose|k: int| 0 <= k < none.len() && #[trigger] none[k].1 == res[q].0;
                        assert(none[k].1 == res[q].0);
                    }
                }
            },
        }
    }
}

/// A farmer known with the same fingerprint is answered without its farms:
/// whatever `farms` holds, nothing is returned and only the identification
/// times change.
pub proof fn lemma_known_farmer_ignores_farms(
    old: KnownFarms,
    new: KnownFarms,
    farmer_id: FarmerId,
    fingerprint: Blake3Hash,
    now: u64,
    farms: Option<Seq<ClusterFarmerFarmDetails>>,
    res: Seq<InsertResultView>,
)
    requires
        !needs_farms(old.farmers(), farmer_id, fingerprint),
        farmer_updated(old, new, farmer_id, fingerprint, now, farms, res),
    ensures
        res.len() == 0,
        new.farmers().len() == old.farmers().len(),
        forall|q: int| 0 <= q < old.farmers().len() ==> (#[trigger] new.farmers()[q]).farmer_id == old.farmers()[q].farmer_id
            && new.farmers()[q].fingerprint == old.farmers()[q].fingerprint
            && new.farmers()[q].known_farms.entries() == touched_entries_if(
                old.farmers()[q].known_farms.entries(),
                now,
                q == farmer_position(old.farmers(), farmer_id),
            ),
{
    lemma_farmer_position(old.farmers(), farmer_id);
}

/// The entries with identification times set to `now` when `touch` holds.
pub open spec fn touched_entries_if(e: Seq<(FarmIndex, KnownFarm)>, now: u64, touch: bool) -> Seq<(FarmIndex, KnownFarm)> {
    if touch {
        touched_entries(e, now)
    } else {
        e
    }
}

/// Removing expired farms keeps exactly the farms that have not expired and
/// hands back only expired ones, none lost.
pub proof fn lemma_expiry_split(e: Seq<(FarmIndex, KnownFarm)>, now: u64, interval: u64)
    ensures
        forall|i: int| 0 <= i < unexpired_entries(e, now, interval).len()
            ==> !farm_expired((#[trigger] unexpired_entries(e, now, interval)[i]).1, now, interval),
        forall|i: int| 0 <= i < expired_entries(e, now, interval).len()
            ==> farm_expired((#[trigger] expired_entries(e, now, interval)[i]).1, now, interval),
        unexpired_entries(e, now, interval).len() + expired_entries(e, now, interval).len() == e.len(),
    decreases e.len(),
{
    if e.len() > 0 {
        lemma_expiry_split(e.drop_last(), now, interval);
        let u = unexpired_entries(e, now, interval);
        let x = expired_entries(e, now, interval);
        let u0 = unexpired_entries(e.drop_last(), now, interval);
        let x0 = expired_entries(e.drop_last(), now, interval);
        assert forall|i: int| 0 <= i < u.len() implies !farm_expired((#[trigger] u[i]).1, now, interval) by {
            if i < u0.len() {
                assert(u[i] == u0[i]);
            }
        }
        assert forall|i: int| 0 <= i < x.len() implies farm_expired((#[trigger] x[i]).1, now, interval) by {
            if i < x0.len() {
                assert(x[i] == x0[i]);
            }
        }
    }
}



/// Removing expired farms twice at the same time: the second removal
/// removes nothing.
pub proof fn lemma_farm_expiry_is_idempotent(e: Seq<(FarmIndex, KnownFarm)>, now: u64, interval: u64)
    ensures
        unexpired_entries(unexpired_entries(e, now, interval), now, interval) == unexpired_entries(e, now, interval),
        expired_entries(unexpired_entries(e, now, interval), now, interval).len() == 0,
    decreases e.len(),
{
    if e.len() > 0 {
        lemma_farm_expiry_is_idempotent(e.drop_last(), now, interval);
        let u0 = unexpired_entries(e.drop_last(), now, interval);
        if !farm_expired(e.last().1, now, interval) {
            let u = u0.push(e.last());
            assert(u.drop_last() == u0);
            assert(u.last() == e.last());
        }
    }
}

/// A farm expires exactly when more than twice the identification interval
/// has passed since its last identification: pruning at `now` keeps every
/// farm identified at most `2 * interval` before `now` (or later), with its
/// index, and removes every other.
pub proof fn lemma_farm_expiry_threshold(e: Seq<(FarmIndex, KnownFarm)>, now: u64, interval: u64)
    ensures
        forall|f: KnownFarm| farm_expired(f, now, interval) <==> now - f.last_identification > 2 * interval,
        forall|i: int| 0 <= i < e.len() && now - (#[trigger] e[i]).1.last_identification <= 2 * interval
            ==> unexpired_entries(e, now, interval).contains(e[i]),
        forall|i: int| 0 <= i < e.len() && now - (#[trigger] e[i]).1.last_identification > 2 * interval
            ==> expired_entries(e, now, interval).contains(e[i]),
    decreases e.len(),
{
    if e.len() > 0 {
        let t = e.drop_last();
        lemma_farm_expiry_threshold(t, now, interval);
        let u = unexpired_entries(e, now, interval);
        let x = expired_entries(e, now, interval);
        let u0 = unexpired_entries(t, now, interval);
        let x0 = expired_entries(t, now, interval);
        assert forall|i: int| 0 <= i < e.len() && now - (#[trigger] e[i]).1.last_identification <= 2 * interval
            implies u.contains(e[i]) by {
            if i == e.len() - 1 {
                assert(u[u.len() - 1] == e[i]);
            } else {
                assert(t[i] == e[i]);
                assert(u0.contains(t[i]));
                let k = choose|k: int| 0 <= k < u0.len() && u0[k] == t[i];
                assert(u[k] == u0[k]);
            }
        }
        assert forall|i: int| 0 <= i < e.len() && now - (#[trigger] e[i]).1.last_identification > 2 * interval
            implies x.contains(e[i]) by {
            if i == e.len() - 1 {
                assert(x[x.len() - 1] == e[i]);
            } else {
                assert(t[i] == e[i]);
                assert(x0.contains(t[i]));
                let k = choose|k: int| 0 <= k < x0.len() && x0[k] == t[i];
                assert(x[k] == x0[k]);
            }
        }
    }
}

/// A farmer identifying itself again with the same fingerprint keeps its
/// farms at their indices, each with its id and fingerprint, and all of
/// them are marked identified at `now`; nothing is returned.
pub proof fn lemma_reidentification_refreshes_farms(
    old: KnownFarms,
    new: KnownFarms,
    farmer_id: FarmerId,
    fingerprint: Blake3Hash,
    now: u64,
    farms: Option<Seq<ClusterFarmerFarmDetails>>,
    res: Seq<InsertResultView>,
)
    requires
        farmer_updated(old, new, farmer_id, fingerprint, now, farms, res),
        farmer_position(old.farmers(), farmer_id) >= 0,
        old.farmers()[farmer_position(old.farmers(), farmer_id)].fingerprint@ == fingerprint@,
    ensures
        ({
            let p = farmer_position(old.farmers(), farmer_id);
            let before = old.farmers()[p].known_farms.entries();
            let after = new.farmers()[p].known_farms.entries();
            &&& res.len() == 0
            &&& after.len() == before.len()
            &&& forall|i: int| 0 <= i < after.len() ==> {
                &&& (#[trigger] after[i]).0 == before[i].0
                &&& after[i].1.farm_id == before[i].1.farm_id
                &&& after[i].1.fingerprint == before[i].1.fingerprint
                &&& after[i].1.last_identification == now
            }
        }),
{
}

} // verus!
