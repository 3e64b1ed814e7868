//! Farms known to the cluster controller.
//!
//! Farmers identify themselves with a fingerprint; when it changes, the
//! controller asks for the farmer's farms again and decides which farms are
//! new, which were re-announced unchanged and which changed and must be
//! re-initialized. Each farm owns a slot (its farm index) that no other farm
//! uses at the time it is picked.
use crate::channel::{expiry_channel, ExpiryReceiver, ExpirySender};
use crate::ids::{Blake3Hash, ClusterFarmerFarmDetails, FarmId, FarmIndex, FarmerId};
use crate::index_map::{
    entries_insert, has_key, key_index, keys_distinct, lemma_entries_insert,
    lemma_key_index, FarmIndexMap,
};
use vstd::prelude::*;

verus! {

/// Number of farm indices, `FarmIndex::MAX + 1`.
pub const FARM_INDEX_COUNT: u32 = 65536;

/// A farm the controller knows of.
pub struct KnownFarm {
    pub farm_id: FarmId,
    pub fingerprint: Blake3Hash,
    /// Time of the last identification, in milliseconds of a monotonic clock.
    pub last_identification: u64,
    /// Dropping or using this sender tells the running farm that it expired.
    pub expired_sender: ExpirySender,
}

/// A farmer with the farms it announced, keyed by farm index.
pub struct KnownFarmer {
    pub farmer_id: FarmerId,
    pub fingerprint: Blake3Hash,
    pub known_farms: FarmIndexMap<KnownFarm>,
}

/// A farm that must be (re-)initialized after a farmer update.
pub struct KnownFarmInsertResult {
    pub farm_index: FarmIndex,
    pub farm_details: ClusterFarmerFarmDetails,
    /// Resolves when the farm expires or is replaced.
    pub expired_receiver: ExpiryReceiver,
    /// The farm must be added.
    pub add: bool,
    /// A previous incarnation at the same index must be removed first.
    pub remove: bool,
}

/// What a result states, without its receiver.
pub open spec fn insert_result_view(r: KnownFarmInsertResult) -> (FarmIndex, ClusterFarmerFarmDetails, bool, bool) {
    (r.farm_index, r.farm_details, r.add, r.remove)
}

/// What a sequence of results states, without receivers.
pub open spec fn insert_results_view(s: Seq<KnownFarmInsertResult>) -> Seq<(FarmIndex, ClusterFarmerFarmDetails, bool, bool)> {
    s.map_values(|r: KnownFarmInsertResult| insert_result_view(r))
}

/// Farm entries `e` hold, at the index of result `r`, a farm whose expiry
/// sender belongs to the channel of `r`'s receiver.
pub open spec fn sender_paired(e: Seq<(FarmIndex, KnownFarm)>, r: KnownFarmInsertResult) -> bool {
    exists|i: int| 0 <= i < e.len() && (#[trigger] e[i]).0 == r.farm_index && e[i].1.expired_sender.channel() == r.expired_receiver.channel()
}

/// Each result's receiver belongs to the expiry sender stored at its index.
pub open spec fn receivers_paired(e: Seq<(FarmIndex, KnownFarm)>, res: Seq<KnownFarmInsertResult>) -> bool {
    forall|k: int| 0 <= k < res.len() ==> #[trigger] sender_paired(e, res[k])
}

/// Set of keys of an entry sequence.
pub open spec fn keys_of<V>(s: Seq<(FarmIndex, V)>) -> Set<FarmIndex> {
    Set::new(|k: FarmIndex| has_key(s, k))
}

/// Farm indices used by any of the farmers.
pub open spec fn used_indices(farmers: Seq<KnownFarmer>) -> Set<FarmIndex> {
    Set::new(|k: FarmIndex| exists|f: int| 0 <= f < farmers.len() && has_key(#[trigger] farmers[f].known_farms.entries(), k))
}

/// Least farm index not in `used` that is at least `start`.
pub open spec fn first_unused_from(used: Set<FarmIndex>, start: int) -> Option<FarmIndex>
    decreases 65536 - start,
{
    if start < 0 || start > 65535 {
        None
    } else if !used.contains(start as FarmIndex) {
        Some(start as FarmIndex)
    } else {
        first_unused_from(used, start + 1)
    }
}

/// Least farm index not in `used`.
pub open spec fn first_unused(used: Set<FarmIndex>) -> Option<FarmIndex> {
    first_unused_from(used, 0)
}

/// The least unused index is unused and every smaller one is used; there is
/// none only when all are used.
pub proof fn lemma_first_unused_from(used: Set<FarmIndex>, start: int)
    requires
        0 <= start <= 65536,
    ensures
        match first_unused_from(used, start) {
            Some(i) => start <= i && !used.contains(i) && forall|j: FarmIndex| start <= j < i ==> used.contains(j),
            None => forall|j: FarmIndex| start <= j ==> used.contains(j),
        },
    decreases 65536 - start,
{
    if start <= 65535 && used.contains(start as FarmIndex) {
        lemma_first_unused_from(used, start + 1);
    }
}

/// `first_unused` is the least index outside `used`, if any.
pub proof fn lemma_first_unused(used: Set<FarmIndex>)
    ensures
        match first_unused(used) {
            Some(i) => !used.contains(i) && forall|j: FarmIndex| j < i ==> used.contains(j),
            None => forall|j: FarmIndex| used.contains(j),
        },
{
    lemma_first_unused_from(used, 0);
}

/// Farm indices held by farms collected by farm id.
pub open spec fn old_indices(old: Seq<(FarmId, FarmIndex, KnownFarm)>) -> Set<FarmIndex> {
    Set::new(|i: FarmIndex| exists|k: int| 0 <= k < old.len() && #[trigger] old[k].1 == i)
}

/// Least farm index used by none of `farmers` and not a key of `extra`.
fn first_free_index(
    farmers: &Vec<KnownFarmer>,
    extra: &FarmIndexMap<KnownFarm>,
) -> (r: Option<FarmIndex>)
    ensures
        r == first_unused(used_indices(farmers@).union(keys_of(extra.entries()))),
{
    let ghost used = used_indices(farmers@).union(keys_of(extra.entries()));
    let mut taken: Vec<bool> = Vec::new();
    let mut n: u32 = 0;
    while n < FARM_INDEX_COUNT
        invariant
            n <= FARM_INDEX_COUNT,
            taken@.len() == n,
            forall|j: int| 0 <= j < n ==> !taken@[j],
        decreases FARM_INDEX_COUNT - n,
    {
        taken.push(false);
        n = n + 1;
    }
    let mut f: usize = 0;
    while f < farmers.len()
        invariant
            f <= farmers@.len(),
            taken@.len() == 65536,
            forall|k: FarmIndex| #![trigger taken@[k as int]] taken@[k as int] <==> exists|g: int| 0 <= g < f && has_key(#[trigger] farmers@[g].known_farms.entries(), k),
        decreases farmers@.len() - f,
    {
        let farms = &farmers[f].known_farms;
        let ghost before = taken@;
        let mut e: usize = 0;
        while e < farms.len()
            invariant
                f < farmers@.len(),
                farms == farmers@[f as int].known_farms,
                e <= farms.entries().len(),
                taken@.len() == 65536,
                before.len() == 65536,
                forall|k: FarmIndex| #![trigger taken@[k as int]] taken@[k as int] <==> (before[k as int] || exists|i: int| 0 <= i < e && #[trigger] farms.entries()[i].0 == k),
            decreases farms.entries().len() - e,
        {
            let k = farms.entry(e).0;
            taken.set(k as usize, true);
            proof {
                assert forall|q: FarmIndex| #![trigger taken@[q as int]] taken@[q as int] <==> (before[q as int] || exists|i: int| 0 <= i < e + 1 && #[trigger] farms.entries()[i].0 == q) by {
                    if q == k {
                        assert(farms.entries()[e as int].0 == q);
                    } else {
                        if exists|i: int| 0 <= i < e + 1 && #[trigger] farms.entries()[i].0 == q {
                            let i = choose|i: int| 0 <= i < e + 1 && #[trigger] farms.entries()[i].0 == q;
                            assert(i != e);
                        }
                    }
                }
            }
            e = e + 1;
        }
        proof {
            assert forall|k: FarmIndex| #![trigger taken@[k as int]] taken@[k as int] <==> exists|g: int| 0 <= g < f + 1 && has_key(#[trigger] farmers@[g].known_farms.entries(), k) by {
                if exists|g: int| 0 <= g < f + 1 && has_key(#[trigger] farmers@[g].known_farms.entries(), k) {
                    let g = choose|g: int| 0 <= g < f + 1 && has_key(#[trigger] farmers@[g].known_farms.entries(), k);
                    if g == f {
                        let i = choose|i: int| 0 <= i < farms.entries().len() && #[trigger] farms.entries()[i].0 == k;
                        assert(farms.entries()[i].0 == k);
                    }
                }
                if taken@[k as int] && !before[k as int] {
                    let i = choose|i: int| 0 <= i < farms.entries().len() && #[trigger] farms.entries()[i].0 == k;
                    assert(has_key(farmers@[f as int].known_farms.entries(), k));
                }
            }
        }
        f = f + 1;
    }
    let mut e: usize = 0;
    while e < extra.len()
        invariant
            e <= extra.entries().len(),
            taken@.len() == 65536,
            forall|k: FarmIndex| #![trigger taken@[k as int]] taken@[k as int] <==> (used_indices(farmers@).contains(k) || exists|i: int| 0 <= i < e && #[trigger] extra.entries()[i].0 == k),
        decreases extra.entries().len() - e,
    {
        let k = extra.entry(e).0;
        taken.set(k as usize, true);
        proof {
            assert forall|q: FarmIndex| #![trigger taken@[q as int]] taken@[q as int] <==> (used_indices(farmers@).contains(q) || exists|i: int| 0 <= i < e + 1 && #[trigger] extra.entries()[i].0 == q) by {
                if q == k {
                    assert(extra.entries()[e as int].0 == q);
                } else {
                    if exists|i: int| 0 <= i < e + 1 && #[trigger] extra.entries()[i].0 == q {
                        let i = choose|i: int| 0 <= i < e + 1 && #[trigger] extra.entries()[i].0 == q;
                        assert(i != e);
                    }
                }
            }
        }
        e = e + 1;
    }
    assert forall|k: FarmIndex| #![trigger taken@[k as int]] taken@[k as int] <==> used.contains(k) by {
        if has_key(extra.entries(), k) {
            let i = choose|i: int| 0 <= i < extra.entries().len() && #[trigger] extra.entries()[i].0 == k;
            assert(extra.entries()[i].0 == k);
        }
    }
    let mut i: u32 = 0;
    while i < FARM_INDEX_COUNT
        invariant
            i <= FARM_INDEX_COUNT,
            taken@.len() == 65536,
            forall|k: FarmIndex| #![trigger taken@[k as int]] taken@[k as int] <==> used.contains(k),
            first_unused(used) == first_unused_from(used, i as int),
            used == used_indices(farmers@).union(keys_of(extra.entries())),
        decreases FARM_INDEX_COUNT - i,
    {
        if !taken[i as usize] {
            assert(!used.contains(i as FarmIndex));
            assert(first_unused_from(used, i as int) == Some(i as FarmIndex));
            return Some(i as FarmIndex);
        }
        assert(used.contains(i as FarmIndex));
        i = i + 1;
    }
    None
}


/// Farmer ids occur at most once.
pub open spec fn farmer_ids_distinct(s: Seq<KnownFarmer>) -> bool {
    forall|a: int, b: int| 0 <= a < b < s.len() ==> #[trigger] s[a].farmer_id != #[trigger] s[b].farmer_id
}

/// `p` is the first position of a farmer with id `id`.
pub open spec fn is_first_farmer(s: Seq<KnownFarmer>, id: FarmerId, p: int) -> bool {
    &&& 0 <= p < s.len()
    &&& s[p].farmer_id == id
    &&& forall|q: int| 0 <= q < p ==> #[trigger] s[q].farmer_id != id
}

/// First position of a farmer with id `id`, or -1.
pub open spec fn farmer_position(s: Seq<KnownFarmer>, id: FarmerId) -> int {
    if exists|p: int| is_first_farmer(s, id, p) {
        choose|p: int| is_first_farmer(s, id, p)
    } else {
        -1
    }
}

/// The first position is unique, and -1 means no farmer has the id.
pub proof fn lemma_farmer_position(s: Seq<KnownFarmer>, id: FarmerId)
    ensures
        farmer_position(s, id) == -1 <==> forall|q: int| 0 <= q < s.len() ==> #[trigger] s[q].farmer_id != id,
        farmer_position(s, id) != -1 ==> is_first_farmer(s, id, farmer_position(s, id)),
        forall|p: int| is_first_farmer(s, id, p) ==> p == farmer_position(s, id),
{
    if exists|p: int| is_first_farmer(s, id, p) {
        let p = choose|p: int| is_first_farmer(s, id, p);
        assert forall|p2: int| is_first_farmer(s, id, p2) implies p2 == p by {
            if p2 < p {
                assert(s[p2].farmer_id != id);
            }
            if p < p2 {
                assert(s[p].farmer_id != id);
            }
        }
    } else {
        assert forall|q: int| 0 <= q < s.len() implies #[trigger] s[q].farmer_id != id by {
            if s[q].farmer_id == id {
                lemma_least_farmer(s, id, q);
            }
        }
    }
}

proof fn lemma_least_farmer(s: Seq<KnownFarmer>, id: FarmerId, q: int)
    requires
        0 <= q < s.len(),
        s[q].farmer_id == id,
    ensures
        exists|p: int| is_first_farmer(s, id, p),
    decreases q,
{
    if forall|r: int| 0 <= r < q ==> #[trigger] s[r].farmer_id != id {
        assert(is_first_farmer(s, id, q));
    } else {
        let r = choose|r: int| 0 <= r < q && #[trigger] s[r].farmer_id == id;
        lemma_least_farmer(s, id, r);
    }
}

/// A farm with its identification time set to `now`.
pub open spec fn touched_farm(f: KnownFarm, now: u64) -> KnownFarm {
    KnownFarm { last_identification: now, ..f }
}

/// Entries with every farm's identification time set to `now`.
pub open spec fn touched_entries(e: Seq<(FarmIndex, KnownFarm)>, now: u64) -> Seq<(FarmIndex, KnownFarm)> {
    e.map_values(|p: (FarmIndex, KnownFarm)| (p.0, touched_farm(p.1, now)))
}

/// Two entry sequences have the same keys in the same places.
pub open spec fn same_keys<V, W>(a: Seq<(FarmIndex, V)>, b: Seq<(FarmIndex, W)>) -> bool {
    &&& a.len() == b.len()
    &&& forall|i: int| 0 <= i < a.len() ==> #[trigger] a[i].0 == #[trigger] b[i].0
}

/// Positions and distinctness of keys depend on the keys alone.
pub proof fn lemma_same_keys<V, W>(a: Seq<(FarmIndex, V)>, b: Seq<(FarmIndex, W)>)
    requires
        same_keys(a, b),
    ensures
        keys_distinct(a) ==> keys_distinct(b),
        forall|k: FarmIndex| #[trigger] key_index(a, k) == key_index(b, k),
        forall|k: FarmIndex| #[trigger] has_key(a, k) == has_key(b, k),
        keys_of(a) == keys_of(b),
{
    assert forall|k: FarmIndex| #[trigger] key_index(a, k) == key_index(b, k) by {
        lemma_key_index_same_keys(a, b, k);
    }
    assert forall|k: FarmIndex| #[trigger] has_key(a, k) == has_key(b, k) by {
        lemma_key_index(a, k);
        lemma_key_index(b, k);
        lemma_key_index_same_keys(a, b, k);
    }
    assert(keys_of(a) =~= keys_of(b));
    if keys_distinct(a) {
        assert forall|i: int, j: int| 0 <= i < j < b.len() implies #[trigger] b[i].0 != #[trigger] b[j].0 by {
            assert(a[i].0 == b[i].0);
            assert(a[j].0 == b[j].0);
        }
    }
}

proof fn lemma_key_index_same_keys<V, W>(a: Seq<(FarmIndex, V)>, b: Seq<(FarmIndex, W)>, k: FarmIndex)
    requires
        same_keys(a, b),
    ensures
        key_index(a, k) == key_index(b, k),
    decreases a.len(),
{
    if a.len() > 0 {
        assert(a.last().0 == b.last().0);
        lemma_key_index_same_keys(a.drop_last(), b.drop_last(), k);
    }
}

/// What the controller knows of farmers and of the farms it runs.
pub struct KnownFarms {
    known_farmers: Vec<KnownFarmer>,
    known_farms: FarmIndexMap<KnownFarm>,
}

impl KnownFarms {
    /// The known farmers, in the order they were first seen.
    pub closed spec fn farmers(&self) -> Seq<KnownFarmer> {
        self.known_farmers@
    }

    /// The farms tracked apart from farmers, keyed by farm index.
    pub closed spec fn farms(&self) -> FarmIndexMap<KnownFarm> {
        self.known_farms
    }

    /// Every farmer's farms have distinct indices, farmer ids are distinct,
    /// and the separately tracked farms have distinct indices.
    pub open spec fn wf(&self) -> bool {
        &&& forall|f: int| 0 <= f < self.farmers().len() ==> (#[trigger] self.farmers()[f]).known_farms.wf()
        &&& farmer_ids_distinct(self.farmers())
        &&& self.farms().wf()
    }

    /// No farmers and no farms.
    pub fn new() -> (r: Self)
        ensures
            r.wf(),
            r.farmers() == Seq::<KnownFarmer>::empty(),
            r.farms().entries() == Seq::<(FarmIndex, KnownFarm)>::empty(),
    {
        KnownFarms { known_farmers: Vec::new(), known_farms: FarmIndexMap::new() }
    }

    /// The known farmers.
    pub fn known_farmers(&self) -> (r: &Vec<KnownFarmer>)
        ensures
            r@ == self.farmers(),
    {
        &self.known_farmers
    }

    /// The farms tracked apart from farmers.
    pub fn known_farms(&self) -> (r: &FarmIndexMap<KnownFarm>)
        ensures
            *r == self.farms(),
    {
        &self.known_farms
    }

    /// Position of the first farmer with id `farmer_id`.
    fn farmer_position(&self, farmer_id: FarmerId) -> (r: Option<usize>)
        ensures
            match r {
                Some(p) => p == farmer_position(self.farmers(), farmer_id),
                None => farmer_position(self.farmers(), farmer_id) == -1,
            },
    {
        proof {
            lemma_farmer_position(self.farmers(), farmer_id);
        }
        let mut i: usize = 0;
        while i < self.known_farmers.len()
            invariant
                i <= self.known_farmers@.len(),
                forall|q: int| 0 <= q < i ==> #[trigger] self.known_farmers@[q].farmer_id != farmer_id,
            decreases self.known_farmers@.len() - i,
        {
            if self.known_farmers[i].farmer_id == farmer_id {
                assert(is_first_farmer(self.farmers(), farmer_id, i as int));
                return Some(i);
            }
            i = i + 1;
        }
        None
    }

    /// Least farm index that no known farmer uses, if any is left.
    pub fn pick_farmer_index(&self) -> (r: Option<FarmIndex>)
        ensures
            r == first_unused(used_indices(self.farmers())),
            match r {
                Some(i) => !used_indices(self.farmers()).contains(i)
                    && forall|j: FarmIndex| j < i ==> used_indices(self.farmers()).contains(j),
                None => forall|j: FarmIndex| used_indices(self.farmers()).contains(j),
            },
    {
        let none: FarmIndexMap<KnownFarm> = FarmIndexMap::new();
        let r = first_free_index(&self.known_farmers, &none);
        proof {
            assert(keys_of(none.entries()) =~= Set::<FarmIndex>::empty());
            assert(used_indices(self.farmers()).union(keys_of(none.entries())) =~= used_indices(self.farmers()));
            lemma_first_unused(used_indices(self.farmers()));
        }
        r
    }
}

/// Sets the identification time of every farm of `farmer` to `now`.
fn touch_farms(farmer: &mut KnownFarmer, now: u64)
    requires
        old(farmer).known_farms.wf(),
    ensures
        final(farmer).farmer_id == old(farmer).farmer_id,
        final(farmer).fingerprint == old(farmer).fingerprint,
        final(farmer).known_farms.entries() == touched_entries(old(farmer).known_farms.entries(), now),
        final(farmer).known_farms.wf(),
{
    let ghost start = farmer.known_farms.entries();
    let mut rest = farmer.known_farms.take_entries();
    let mut done: Vec<(FarmIndex, KnownFarm)> = Vec::new();
    while rest.len() > 0
        invariant
            done@.len() + rest@.len() == start.len(),
            rest@ == start.skip(done@.len() as int),
            done@ == touched_entries(start.take(done@.len() as int), now),
        decreases rest@.len(),
    {
        let ghost k = done@.len() as int;
        let (index, farm) = rest.remove(0);
        done.push((index, KnownFarm { last_identification: now, ..farm }));
        proof {
            assert(start.take(k + 1) =~= start.take(k).push(start[k]));
            assert(rest@ =~= start.skip(k + 1));
            assert(done@ =~= touched_entries(start.take(k + 1), now));
        }
    }
    proof {
        assert(start.take(start.len() as int) =~= start);
        lemma_same_keys(start, done@);
    }
    farmer.known_farms = FarmIndexMap::from_entries(done);
}


/// Position of the last entry for farm `id`, or -1.
pub open spec fn farm_id_index(s: Seq<(FarmId, FarmIndex, KnownFarm)>, id: FarmId) -> int
    decreases s.len(),
{
    if s.len() == 0 {
        -1
    } else if s.last().0 == id {
        s.len() - 1
    } else {
        farm_id_index(s.drop_last(), id)
    }
}

pub proof fn lemma_farm_id_index(s: Seq<(FarmId, FarmIndex, KnownFarm)>, id: FarmId)
    ensures
        -1 <= farm_id_index(s, id) < s.len(),
        farm_id_index(s, id) >= 0 ==> s[farm_id_index(s, id)].0 == id,
        farm_id_index(s, id) == -1 ==> forall|k: int| 0 <= k < s.len() ==> (#[trigger] s[k]).0 != id,
    decreases s.len(),
{
    if s.len() > 0 {
        lemma_farm_id_index(s.drop_last(), id);
        if farm_id_index(s, id) == -1 {
            assert forall|k: int| 0 <= k < s.len() implies (#[trigger] s[k]).0 != id by {
                if k < s.len() - 1 {
                    assert(s[k] == s.drop_last()[k]);
                }
            }
        }
    }
}

/// A farmer's farms keyed by farm id, as collecting `(farm id, (index,
/// farm))` pairs into a map does: a later farm with the same id replaces an
/// earlier one.
pub open spec fn farms_by_id(e: Seq<(FarmIndex, KnownFarm)>) -> Seq<(FarmId, FarmIndex, KnownFarm)>
    decreases e.len(),
{
    if e.len() == 0 {
        Seq::empty()
    } else {
        let c = farms_by_id(e.drop_last());
        let k = e.last().0;
        let f = e.last().1;
        let j = farm_id_index(c, f.farm_id);
        if j >= 0 {
            c.update(j, (f.farm_id, k, f))
        } else {
            c.push((f.farm_id, k, f))
        }
    }
}

/// What a farm slot holds after a farmer update: a farm kept with its
/// expiry sender, or a farm with these id, fingerprint and identification
/// time and a new expiry sender.
pub enum FarmSlot {
    Kept(KnownFarm),
    Fresh(FarmId, Blake3Hash, u64),
}

pub open spec fn slot_matches(f: KnownFarm, s: FarmSlot) -> bool {
    match s {
        FarmSlot::Kept(k) => f == k,
        FarmSlot::Fresh(id, fingerprint, t) => f.farm_id == id && f.fingerprint == fingerprint
            && f.last_identification == t,
    }
}

/// Entries hold farms as the slots describe.
pub open spec fn entries_match(e: Seq<(FarmIndex, KnownFarm)>, s: Seq<(FarmIndex, FarmSlot)>) -> bool {
    &&& same_keys(e, s)
    &&& forall|i: int| 0 <= i < e.len() ==> slot_matches(#[trigger] e[i].1, s[i].1)
}

pub proof fn lemma_entries_match_insert(
    e: Seq<(FarmIndex, KnownFarm)>,
    s: Seq<(FarmIndex, FarmSlot)>,
    k: FarmIndex,
    f: KnownFarm,
    slot: FarmSlot,
)
    requires
        entries_match(e, s),
        slot_matches(f, slot),
    ensures
        entries_match(entries_insert(e, k, f), entries_insert(s, k, slot)),
{
    lemma_same_keys(e, s);
    lemma_key_index(e, k);
    let a = entries_insert(e, k, f);
    let b = entries_insert(s, k, slot);
    let j = key_index(e, k);
    assert(j == key_index(s, k));
    assert(a.len() == b.len());
    assert forall|i: int| 0 <= i < a.len() implies #[trigger] a[i].0 == #[trigger] b[i].0 && slot_matches(a[i].1, b[i].1) by {
        if i < e.len() && i != j {
            assert(e[i].0 == s[i].0);
            assert(slot_matches(e[i].1, s[i].1));
        }
    }
}

/// One result as stated without its receiver: index, details, add, remove.
pub type InsertResultView = (FarmIndex, ClusterFarmerFarmDetails, bool, bool);

/// Farms of a farmer whose fingerprint changed: farms not yet re-announced,
/// the farms so far, and the results so far.
pub type RefreshState = (Seq<(FarmId, FarmIndex, KnownFarm)>, Seq<(FarmIndex, FarmSlot)>, Seq<InsertResultView>);

/// Whether farm `id` is announced among `future`.
pub open spec fn announced_in(future: Seq<ClusterFarmerFarmDetails>, id: FarmId) -> bool {
    exists|m: int| 0 <= m < future.len() && (#[trigger] future[m]).farm_id == id
}

/// Indices of the previous farms still to be handled that are announced
/// again among `future`: each will go back to its index.
pub open spec fn reserved_indices(old: Seq<(FarmId, FarmIndex, KnownFarm)>, future: Seq<ClusterFarmerFarmDetails>) -> Set<FarmIndex> {
    Set::new(|i: FarmIndex| exists|k: int| 0 <= k < old.len() && (#[trigger] old[k]).1 == i && announced_in(future, old[k].0))
}

/// Handling of one announced farm `d`; `others` are the farm indices of the
/// other farmers. A farm among the farmer's previous farms goes back to its
/// index, replacing whatever farm was placed there: unchanged it keeps its
/// expiry sender, changed it takes the new fingerprint and a new sender and
/// is returned for re-initialization. Any other farm takes the least index
/// that no farmer uses (no other farmer, no farm placed so far) and is
/// returned for initialization.
pub open spec fn refresh_step(
    st: RefreshState,
    others: Set<FarmIndex>,
    now: u64,
    d: ClusterFarmerFarmDetails,
) -> RefreshState {
    let old = st.0;
    let farms = st.1;
    let results = st.2;
    let j = farm_id_index(old, d.farm_id);
    if j >= 0 {
        let index = old[j].1;
        let farm = old[j].2;
        if farm.fingerprint@ == d.fingerprint@ {
            (old.remove(j), entries_insert(farms, index, FarmSlot::Kept(touched_farm(farm, now))), results)
        } else {
            (
                old.remove(j),
                entries_insert(farms, index, FarmSlot::Fresh(farm.farm_id, d.fingerprint, now)),
                results.push((index, d, true, true)),
            )
        }
    } else {
        match first_unused(others.union(keys_of(farms))) {
            None => st,
            Some(i) => (
                old,
                entries_insert(farms, i, FarmSlot::Fresh(d.farm_id, d.fingerprint, now)),
                results.push((i, d, true, false)),
            ),
        }
    }
}

/// Handling of the first `n` announced farms of `ds` in order, starting
/// from the farmer's previous farms `old` (none for a new farmer) and no
/// farms.
pub open spec fn refresh_prefix(
    old: Seq<(FarmId, FarmIndex, KnownFarm)>,
    others: Set<FarmIndex>,
    now: u64,
    ds: Seq<ClusterFarmerFarmDetails>,
    n: int,
) -> RefreshState
    decreases n,
{
    if n <= 0 {
        (old, Seq::empty(), Seq::empty())
    } else {
        refresh_step(
            refresh_prefix(old, others, now, ds, n - 1),
            others,
            now,
            ds[n - 1],
        )
    }
}

/// Handling of all announced farms `ds`.
pub open spec fn refresh_fold(
    old: Seq<(FarmId, FarmIndex, KnownFarm)>,
    others: Set<FarmIndex>,
    now: u64,
    ds: Seq<ClusterFarmerFarmDetails>,
) -> RefreshState {
    refresh_prefix(old, others, now, ds, ds.len() as int)
}

/// Whether the farm announced at position `n` of `ds`, when it is new, takes
/// an index that no previous farm announced after it goes back to.
pub open spec fn keeps_clear_at(
    old: Seq<(FarmId, FarmIndex, KnownFarm)>,
    others: Set<FarmIndex>,
    now: u64,
    ds: Seq<ClusterFarmerFarmDetails>,
    n: int,
) -> bool {
    let st = refresh_prefix(old, others, now, ds, n);
    farm_id_index(st.0, ds[n].farm_id) < 0 ==> match first_unused(others.union(keys_of(st.1))) {
        Some(i) => !reserved_indices(st.0, ds.subrange(n + 1, ds.len() as int)).contains(i),
        None => true,
    }
}

/// Whether no new farm among `ds` takes an index that a previous farm
/// announced after it goes back to (such a farm would replace the new one).
pub open spec fn no_index_taken_back(
    old: Seq<(FarmId, FarmIndex, KnownFarm)>,
    others: Set<FarmIndex>,
    now: u64,
    ds: Seq<ClusterFarmerFarmDetails>,
) -> bool {
    forall|n: int| 0 <= n < ds.len() ==> #[trigger] keeps_clear_at(old, others, now, ds, n)
}

/// Without previous farms, none is left to handle.
pub proof fn lemma_refresh_prefix_without_old(
    others: Set<FarmIndex>,
    now: u64,
    ds: Seq<ClusterFarmerFarmDetails>,
    n: int,
)
    requires
        0 <= n <= ds.len(),
    ensures
        refresh_prefix(Seq::empty(), others, now, ds, n).0 == Seq::<(FarmId, FarmIndex, KnownFarm)>::empty(),
    decreases n,
{
    if n > 0 {
        let st = refresh_prefix(Seq::empty(), others, now, ds, n - 1);
        lemma_refresh_prefix_without_old(others, now, ds, n - 1);
        lemma_farm_id_index(st.0, ds[n - 1].farm_id);
    }
}

/// A farmer without previous farms has no index taken back.
pub proof fn lemma_no_index_taken_back_without_old(
    others: Set<FarmIndex>,
    now: u64,
    ds: Seq<ClusterFarmerFarmDetails>,
)
    ensures
        no_index_taken_back(Seq::empty(), others, now, ds),
{
    assert forall|n: int| 0 <= n < ds.len() implies #[trigger] keeps_clear_at(Seq::empty(), others, now, ds, n) by {
        lemma_refresh_prefix_without_old(others, now, ds, n);
    }
}

/// A farm announced after position `n` is announced after position `n - 1`.
pub proof fn lemma_announced_later(ds: Seq<ClusterFarmerFarmDetails>, n: int, id: FarmId)
    requires
        1 <= n <= ds.len(),
        announced_in(ds.subrange(n, ds.len() as int), id),
    ensures
        announced_in(ds.subrange(n - 1, ds.len() as int), id),
{
    let f = ds.subrange(n, ds.len() as int);
    let g = ds.subrange(n - 1, ds.len() as int);
    let m = choose|m: int| 0 <= m < f.len() && (#[trigger] f[m]).farm_id == id;
    assert(g[m + 1] == f[m]);
}

/// Id of the farm a slot holds.
pub open spec fn slot_farm_id(s: FarmSlot) -> FarmId {
    match s {
        FarmSlot::Kept(k) => k.farm_id,
        FarmSlot::Fresh(id, _, _) => id,
    }
}

/// Collected previous farms: each under its own id, at distinct indices.
pub open spec fn old_farms_wf(old: Seq<(FarmId, FarmIndex, KnownFarm)>) -> bool {
    &&& forall|k: int| 0 <= k < old.len() ==> (#[trigger] old[k]).0 == old[k].2.farm_id
    &&& forall|a: int, b: int| 0 <= a < b < old.len() ==> #[trigger] old[a].1 != #[trigger] old[b].1
}

/// Returned farms have pairwise distinct indices.
pub open spec fn result_indices_distinct(res: Seq<InsertResultView>) -> bool {
    forall|a: int, b: int| 0 <= a < b < res.len() ==> #[trigger] res[a].0 != #[trigger] res[b].0
}

/// Index `index` of the entries holds farm `id`.
pub open spec fn entry_holds(e: Seq<(FarmIndex, KnownFarm)>, index: FarmIndex, id: FarmId) -> bool {
    exists|i: int| 0 <= i < e.len() && (#[trigger] e[i]).0 == index && e[i].1.farm_id == id
}

/// Index `index` of the slots holds farm `id`.
pub open spec fn slot_holds(s: Seq<(FarmIndex, FarmSlot)>, index: FarmIndex, id: FarmId) -> bool {
    exists|i: int| 0 <= i < s.len() && (#[trigger] s[i]).0 == index && slot_farm_id(s[i].1) == id
}

/// Each returned farm's index holds the farm with that result's farm id.
pub open spec fn results_placed(e: Seq<(FarmIndex, KnownFarm)>, res: Seq<InsertResultView>) -> bool {
    forall|k: int| 0 <= k < res.len() ==> entry_holds(e, (#[trigger] res[k]).0, res[k].1.farm_id)
}

/// The same, for slots.
pub open spec fn results_in_slots(s: Seq<(FarmIndex, FarmSlot)>, res: Seq<InsertResultView>) -> bool {
    forall|k: int| 0 <= k < res.len() ==> slot_holds(s, (#[trigger] res[k]).0, res[k].1.farm_id)
}

/// Setting a key adds exactly that key.
pub proof fn lemma_keys_of_insert<V>(s: Seq<(FarmIndex, V)>, k: FarmIndex, v: V)
    ensures
        keys_of(entries_insert(s, k, v)) == keys_of(s).insert(k),
{
    lemma_key_index(s, k);
    let r = entries_insert(s, k, v);
    let j = key_index(s, k);
    assert forall|q: FarmIndex| keys_of(r).contains(q) <==> keys_of(s).insert(k).contains(q) by {
        if keys_of(r).contains(q) {
            let i = choose|i: int| 0 <= i < r.len() && #[trigger] r[i].0 == q;
            if i < s.len() && i != j {
                assert(s[i].0 == q);
            }
        }
        if keys_of(s).contains(q) && q != k {
            let i = choose|i: int| 0 <= i < s.len() && #[trigger] s[i].0 == q;
            assert(r[i].0 == q);
        }
        if q == k {
            if j >= 0 {
                assert(r[j].0 == k);
            } else {
                assert(r[s.len() as int].0 == k);
            }
        }
    }
    assert(keys_of(r) =~= keys_of(s).insert(k));
}

/// Farms placed as the slots say hold the results the slots hold.
pub proof fn lemma_results_placed(
    e: Seq<(FarmIndex, KnownFarm)>,
    s: Seq<(FarmIndex, FarmSlot)>,
    res: Seq<InsertResultView>,
)
    requires
        entries_match(e, s),
        results_in_slots(s, res),
    ensures
        results_placed(e, res),
{
    assert forall|k: int| 0 <= k < res.len() implies entry_holds(e, (#[trigger] res[k]).0, res[k].1.farm_id) by {
        assert(slot_holds(s, res[k].0, res[k].1.farm_id));
        let i = choose|i: int| 0 <= i < s.len() && (#[trigger] s[i]).0 == res[k].0 && slot_farm_id(s[i].1) == res[k].1.farm_id;
        assert(e[i].0 == s[i].0);
        assert(slot_matches(e[i].1, s[i].1));
    }
}

/// Setting a key that is absent appends it.
pub proof fn lemma_entries_insert_absent<V>(s: Seq<(FarmIndex, V)>, k: FarmIndex, v: V)
    requires
        !keys_of(s).contains(k),
    ensures
        entries_insert(s, k, v) == s.push((k, v)),
{
    lemma_key_index(s, k);
}

/// Where no index is taken back, handling announced farms never places two
/// farms at one index: every farm goes to an index that no farm placed so
/// far holds and that no previous farm announced again later will go back
/// to, so the results have distinct indices and each holds its farm at the
/// end.
pub proof fn lemma_refresh_prefix_placement(
    old: Seq<(FarmId, FarmIndex, KnownFarm)>,
    others: Set<FarmIndex>,
    now: u64,
    ds: Seq<ClusterFarmerFarmDetails>,
    n: int,
)
    requires
        old_farms_wf(old),
        0 <= n <= ds.len(),
        no_index_taken_back(old, others, now, ds),
    ensures
        old_farms_wf(refresh_prefix(old, others, now, ds, n).0),
        keys_distinct(refresh_prefix(old, others, now, ds, n).1),
        keys_of(refresh_prefix(old, others, now, ds, n).1).disjoint(
            reserved_indices(refresh_prefix(old, others, now, ds, n).0, ds.subrange(n, ds.len() as int)),
        ),
        result_indices_distinct(refresh_prefix(old, others, now, ds, n).2),
        results_in_slots(refresh_prefix(old, others, now, ds, n).1, refresh_prefix(old, others, now, ds, n).2),
        forall|k: int| 0 <= k < refresh_prefix(old, others, now, ds, n).2.len() ==> keys_of(refresh_prefix(old, others, now, ds, n).1).contains(
            #[trigger] refresh_prefix(old, others, now, ds, n).2[k].0,
        ),
    decreases n,
{
    if n == 0 {
        assert(keys_of(Seq::<(FarmIndex, FarmSlot)>::empty()) =~= Set::<FarmIndex>::empty());
    } else {
        let st = refresh_prefix(old, others, now, ds, n - 1);
        lemma_refresh_prefix_placement(old, others, now, ds, n - 1);
        let d = ds[n - 1];
        let future = ds.subrange(n, ds.len() as int);
        let before = ds.subrange(n - 1, ds.len() as int);
        assert(before[0] == d);
        let j = farm_id_index(st.0, d.farm_id);
        lemma_farm_id_index(st.0, d.farm_id);
        let nx = refresh_prefix(old, others, now, ds, n);
        let (index, slot) = if j >= 0 {
            let farm = st.0[j].2;
            if farm.fingerprint@ == d.fingerprint@ {
                (st.0[j].1, FarmSlot::Kept(touched_farm(farm, now)))
            } else {
                (st.0[j].1, FarmSlot::Fresh(farm.farm_id, d.fingerprint, now))
            }
        } else {
            let used = others.union(keys_of(st.1));
            lemma_first_unused(used);
            assert(keeps_clear_at(old, others, now, ds, n - 1));
            match first_unused(used) {
                Some(i) => (i, FarmSlot::Fresh(d.farm_id, d.fingerprint, now)),
                None => (0u16, FarmSlot::Fresh(d.farm_id, d.fingerprint, now)),
            }
        };
        let placed = j >= 0 || first_unused(others.union(keys_of(st.1))) is Some;
        if placed {
            if j >= 0 {
                assert(announced_in(before, st.0[j].0));
                assert(reserved_indices(st.0, before).contains(st.0[j].1));
            } else {
                assert(keeps_clear_at(old, others, now, ds, n - 1));
                assert(!reserved_indices(st.0, future).contains(index));
            }
            assert(!keys_of(st.1).contains(index));
            lemma_entries_insert_absent(st.1, index, slot);
            assert(nx.1 == st.1.push((index, slot)));
            lemma_keys_of_insert(st.1, index, slot);
            let rest = if j >= 0 { st.0.remove(j) } else { st.0 };
            assert(nx.0 == rest);
            // the previous farms still to handle
            assert forall|x: FarmIndex| reserved_indices(rest, future).contains(x) implies reserved_indices(st.0, before).contains(x) && x != index by {
                let q = choose|q: int| 0 <= q < rest.len() && (#[trigger] rest[q]).1 == x && announced_in(future, rest[q].0);
                lemma_announced_later(ds, n, rest[q].0);
                if j >= 0 {
                    if q < j {
                        assert(rest[q] == st.0[q]);
                        assert(st.0[q].1 != st.0[j].1);
                    } else {
                        assert(rest[q] == st.0[q + 1]);
                        assert(st.0[j].1 != st.0[q + 1].1);
                    }
                } else {
                    assert(rest[q] == st.0[q]);
                }
            }
            if j >= 0 {
                assert forall|k: int| 0 <= k < rest.len() implies (#[trigger] rest[k]).0 == rest[k].2.farm_id by {
                    if k < j {
                        assert(rest[k] == st.0[k]);
                    } else {
                        assert(rest[k] == st.0[k + 1]);
                    }
                }
                assert forall|a: int, b: int| 0 <= a < b < rest.len() implies #[trigger] rest[a].1 != #[trigger] rest[b].1 by {
                    let a2 = if a < j { a } else { a + 1 };
                    let b2 = if b < j { b } else { b + 1 };
                    assert(rest[a] == st.0[a2]);
                    assert(rest[b] == st.0[b2]);
                }
                assert(slot_farm_id(slot) == d.farm_id);
            }
            assert(keys_distinct(nx.1)) by {
                assert forall|a: int, b: int| 0 <= a < b < nx.1.len() implies #[trigger] nx.1[a].0 != #[trigger] nx.1[b].0 by {
                    if b == st.1.len() {
                        assert(nx.1[a] == st.1[a]);
                        assert(keys_of(st.1).contains(st.1[a].0));
                    } else {
                        assert(nx.1[a] == st.1[a]);
                        assert(nx.1[b] == st.1[b]);
                    }
                }
            }
            // results
            if nx.2.len() > st.2.len() {
                assert(nx.2 == st.2.push((index, d, true, j >= 0)));
                assert forall|a: int, b: int| 0 <= a < b < nx.2.len() implies #[trigger] nx.2[a].0 != #[trigger] nx.2[b].0 by {
                    assert(nx.2[a] == st.2[a]);
                    if b < st.2.len() {
                        assert(nx.2[b] == st.2[b]);
                    } else {
                        assert(keys_of(st.1).contains(st.2[a].0));
                    }
                }
                assert forall|k: int| 0 <= k < nx.2.len() implies slot_holds(nx.1, (#[trigger] nx.2[k]).0, nx.2[k].1.farm_id) by {
                    if k < st.2.len() {
                        assert(nx.2[k] == st.2[k]);
                        assert(slot_holds(st.1, st.2[k].0, st.2[k].1.farm_id));
                        let i = choose|i: int| 0 <= i < st.1.len() && (#[trigger] st.1[i]).0 == st.2[k].0 && slot_farm_id(st.1[i].1) == st.2[k].1.farm_id;
                        assert(nx.1[i] == st.1[i]);
                    } else {
                        assert(nx.1[st.1.len() as int] == (index, slot));
                    }
                }
            } else {
                assert(nx.2 == st.2);
                assert forall|k: int| 0 <= k < nx.2.len() implies slot_holds(nx.1, (#[trigger] nx.2[k]).0, nx.2[k].1.farm_id) by {
                    assert(slot_holds(st.1, st.2[k].0, st.2[k].1.farm_id));
                    let i = choose|i: int| 0 <= i < st.1.len() && (#[trigger] st.1[i]).0 == st.2[k].0 && slot_farm_id(st.1[i].1) == st.2[k].1.farm_id;
                    assert(nx.1[i] == st.1[i]);
                }
            }
            assert forall|k: int| 0 <= k < nx.2.len() implies keys_of(nx.1).contains(#[trigger] nx.2[k].0) by {
                if k < st.2.len() {
                    assert(nx.2[k] == st.2[k]);
                    assert(keys_of(st.1).contains(st.2[k].0));
                } else {
                    assert(nx.1[st.1.len() as int].0 == index);
                }
            }
        } else {
            assert(nx == st);
            assert forall|x: FarmIndex| reserved_indices(st.0, future).contains(x) implies reserved_indices(st.0, before).contains(x) by {
                let q = choose|q: int| 0 <= q < st.0.len() && (#[trigger] st.0[q]).1 == x && announced_in(future, st.0[q].0);
                lemma_announced_later(ds, n, st.0[q].0);
            }
        }
    }
}

/// Where no index is taken back, handling all announced farms never places
/// two farms at one index.
pub proof fn lemma_refresh_fold_placement(
    old: Seq<(FarmId, FarmIndex, KnownFarm)>,
    others: Set<FarmIndex>,
    now: u64,
    ds: Seq<ClusterFarmerFarmDetails>,
)
    requires
        old_farms_wf(old),
        no_index_taken_back(old, others, now, ds),
    ensures
        keys_distinct(refresh_fold(old, others, now, ds).1),
        result_indices_distinct(refresh_fold(old, others, now, ds).2),
        results_in_slots(refresh_fold(old, others, now, ds).1, refresh_fold(old, others, now, ds).2),
{
    lemma_refresh_prefix_placement(old, others, now, ds, ds.len() as int);
}

/// Where no index is taken back, a previous farm announced again goes back
/// to an index that no farm placed so far holds.
proof fn lemma_refresh_step_index_unused(
    old: Seq<(FarmId, FarmIndex, KnownFarm)>,
    others: Set<FarmIndex>,
    now: u64,
    ds: Seq<ClusterFarmerFarmDetails>,
    n: int,
)
    requires
        old_farms_wf(old),
        0 <= n < ds.len(),
        no_index_taken_back(old, others, now, ds),
    ensures
        ({
            let st = refresh_prefix(old, others, now, ds, n);
            let j = farm_id_index(st.0, ds[n].farm_id);
            j >= 0 ==> !keys_of(st.1).contains(st.0[j].1)
        }),
{
    lemma_refresh_prefix_placement(old, others, now, ds, n);
    let st = refresh_prefix(old, others, now, ds, n);
    let future = ds.subrange(n, ds.len() as int);
    let j = farm_id_index(st.0, ds[n].farm_id);
    lemma_farm_id_index(st.0, ds[n].farm_id);
    if j >= 0 {
        assert(future[0] == ds[n]);
        assert(announced_in(future, st.0[j].0));
        assert(reserved_indices(st.0, future).contains(st.0[j].1));
    }
}

/// Farms collected by farm id hold indices of the farmer's farms.
pub proof fn lemma_farms_by_id_indices(e: Seq<(FarmIndex, KnownFarm)>)
    ensures
        forall|j: int| 0 <= j < farms_by_id(e).len() ==> keys_of(e).contains(#[trigger] farms_by_id(e)[j].1),
    decreases e.len(),
{
    if e.len() > 0 {
        let t = e.drop_last();
        let c = farms_by_id(t);
        lemma_farms_by_id_indices(t);
        lemma_farm_id_index(c, e.last().1.farm_id);
        let r = farms_by_id(e);
        assert forall|j: int| 0 <= j < r.len() implies keys_of(e).contains(#[trigger] r[j].1) by {
            if j < c.len() && r[j] == c[j] {
                assert(keys_of(t).contains(c[j].1));
                let i = choose|i: int| 0 <= i < t.len() && #[trigger] t[i].0 == c[j].1;
                assert(e[i].0 == c[j].1);
            } else {
                assert(e[e.len() - 1].0 == r[j].1);
            }
        }
    }
}

/// A farmer's farms with distinct indices, collected by farm id, are well
/// formed.
pub proof fn lemma_farms_by_id_wf(e: Seq<(FarmIndex, KnownFarm)>)
    requires
        keys_distinct(e),
    ensures
        old_farms_wf(farms_by_id(e)),
    decreases e.len(),
{
    if e.len() > 0 {
        let t = e.drop_last();
        let c = farms_by_id(t);
        lemma_farms_by_id_wf(t);
        lemma_farms_by_id_indices(t);
        lemma_farm_id_index(c, e.last().1.farm_id);
        let r = farms_by_id(e);
        let k = e.last().0;
        assert forall|q: int| 0 <= q < c.len() implies c[q].1 != k by {
            assert(keys_of(t).contains(c[q].1));
            let i = choose|i: int| 0 <= i < t.len() && #[trigger] t[i].0 == c[q].1;
            assert(e[i].0 != e[e.len() - 1].0);
        }
        assert forall|a: int, b: int| 0 <= a < b < r.len() implies #[trigger] r[a].1 != #[trigger] r[b].1 by {
            if b < c.len() && r[b] == c[b] && r[a] == c[a] {
            } else if b < c.len() && r[b] == c[b] {
                assert(r[a].1 == k);
            } else {
                assert(r[b].1 == k);
                if r[a] != c[a] {
                    assert(a == farm_id_index(c, e.last().1.farm_id));
                    assert(b == farm_id_index(c, e.last().1.farm_id) || b == c.len());
                }
            }
        }
    }
}

/// Collects a farmer's previous farms by farm id.
fn collect_by_farm_id(entries: Vec<(FarmIndex, KnownFarm)>) -> (r: Vec<(FarmId, FarmIndex, KnownFarm)>)
    ensures
        r@ == farms_by_id(entries@),
{
    let ghost start = entries@;
    let mut rest = entries;
    let total = rest.len();
    assert(start.len() == total);
    let mut done: usize = 0;
    let mut collected: Vec<(FarmId, FarmIndex, KnownFarm)> = Vec::new();
    while rest.len() > 0
        invariant
            done + rest@.len() == start.len(),
            start.len() <= usize::MAX,
            rest@ == start.skip(done as int),
            collected@ == farms_by_id(start.take(done as int)),
        decreases rest@.len(),
    {
        let (index, farm) = rest.remove(0);
        let ghost prefix = start.take(done as int + 1);
        proof {
            assert(prefix.drop_last() =~= start.take(done as int));
            assert(prefix.last() == start[done as int]);
            lemma_farm_id_index(collected@, farm.farm_id);
        }
        let id = farm.farm_id;
        match position_of_farm(&collected, id) {
            Some(j) => {
                collected.set(j, (id, index, farm));
            },
            None => {
                collected.push((id, index, farm));
            },
        }
        done = done + 1;
        proof {
            assert(rest@ =~= start.skip(done as int));
        }
    }
    proof {
        assert(start.take(start.len() as int) =~= start);
    }
    collected
}

/// Position of the last entry for farm `id`.
fn position_of_farm(s: &Vec<(FarmId, FarmIndex, KnownFarm)>, id: FarmId) -> (r: Option<usize>)
    ensures
        match r {
            Some(j) => j == farm_id_index(s@, id) && j < s@.len(),
            None => farm_id_index(s@, id) == -1,
        },
{
    proof {
        lemma_farm_id_index(s@, id);
    }
    let mut i = s.len();
    assert(s@.take(i as int) =~= s@);
    while i > 0
        invariant
            i <= s@.len(),
            farm_id_index(s@, id) == farm_id_index(s@.take(i as int), id),
        decreases i,
    {
        assert(s@.take(i as int).drop_last() =~= s@.take(i - 1));
        if s[i - 1].0 == id {
            return Some(i - 1);
        }
        i = i - 1;
    }
    None
}


proof fn lemma_results_push(v: Seq<KnownFarmInsertResult>, x: KnownFarmInsertResult)
    ensures
        insert_results_view(v.push(x)) == insert_results_view(v).push(insert_result_view(x)),
{
    assert(insert_results_view(v.push(x)) =~= insert_results_view(v).push(insert_result_view(x)));
}

/// Appending a farm keeps every result paired with its sender.
proof fn lemma_pairing_push_entry(e: Seq<(FarmIndex, KnownFarm)>, res: Seq<KnownFarmInsertResult>, x: FarmIndex, f: KnownFarm)
    requires
        receivers_paired(e, res),
    ensures
        receivers_paired(e.push((x, f)), res),
{
    let e2 = e.push((x, f));
    assert forall|k: int| 0 <= k < res.len() implies #[trigger] sender_paired(e2, res[k]) by {
        assert(sender_paired(e, res[k]));
        let i = choose|i: int| 0 <= i < e.len() && (#[trigger] e[i]).0 == res[k].farm_index && e[i].1.expired_sender.channel() == res[k].expired_receiver.channel();
        assert(e2[i] == e[i]);
    }
}

/// Appending a farm together with the result of its channel keeps every
/// result paired with its sender.
proof fn lemma_pairing_push_both(e: Seq<(FarmIndex, KnownFarm)>, res: Seq<KnownFarmInsertResult>, f: KnownFarm, r: KnownFarmInsertResult)
    requires
        receivers_paired(e, res),
        f.expired_sender.channel() == r.expired_receiver.channel(),
    ensures
        receivers_paired(e.push((r.farm_index, f)), res.push(r)),
{
    let e2 = e.push((r.farm_index, f));
    lemma_pairing_push_entry(e, res, r.farm_index, f);
    assert(e2[e.len() as int] == (r.farm_index, f));
    assert(sender_paired(e2, r));
    assert forall|k: int| 0 <= k < res.push(r).len() implies #[trigger] sender_paired(e2, res.push(r)[k]) by {
        if k < res.len() {
            assert(res.push(r)[k] == res[k]);
            assert(sender_paired(e2, res[k]));
        }
    }
}

/// Handles the farms a farmer announced, in order; `old_farms` are its
/// previous farms (none for a new farmer), `others` the other farmers and
/// `farms` the farmer's farms, empty at first.
fn refresh_farms(
    others: &Vec<KnownFarmer>,
    farms: &mut FarmIndexMap<KnownFarm>,
    old_farms: Vec<(FarmId, FarmIndex, KnownFarm)>,
    details: &Vec<ClusterFarmerFarmDetails>,
    now: u64,
) -> (results: Vec<KnownFarmInsertResult>)
    requires
        old(farms).entries().len() == 0,
        old_farms_wf(old_farms@),
    ensures
        final(farms).wf(),
        entries_match(final(farms).entries(), refresh_fold(old_farms@, used_indices(others@), now, details@).1),
        insert_results_view(results@) == refresh_fold(old_farms@, used_indices(others@), now, details@).2,
        no_index_taken_back(old_farms@, used_indices(others@), now, details@) ==> receivers_paired(final(farms).entries(), results@),
{
    let ghost others_used = used_indices(others@);
    let ghost start = old_farms@;
    let ghost clear = no_index_taken_back(start, others_used, now, details@);
    let mut old_farms = old_farms;
    let mut results: Vec<KnownFarmInsertResult> = Vec::new();
    let mut n: usize = 0;
    proof {
        assert(insert_results_view(results@) =~= Seq::<InsertResultView>::empty());
    }
    while n < details.len()
        invariant
            n <= details@.len(),
            farms.wf(),
            others_used == used_indices(others@),
            old_farms@ == refresh_prefix(start, others_used, now, details@, n as int).0,
            entries_match(farms.entries(), refresh_prefix(start, others_used, now, details@, n as int).1),
            insert_results_view(results@) == refresh_prefix(start, others_used, now, details@, n as int).2,
            old_farms_wf(start),
            clear == no_index_taken_back(start, others_used, now, details@),
            clear ==> receivers_paired(farms.entries(), results@),
        decreases details@.len() - n,
    {
        let d = details[n];
        let ghost st = refresh_prefix(start, others_used, now, details@, n as int);
        let ghost before = farms.entries();
        proof {
            lemma_same_keys(farms.entries(), st.1);
            lemma_farm_id_index(old_farms@, d.farm_id);
            if clear {
                lemma_refresh_step_index_unused(start, others_used, now, details@, n as int);
            }
        }
        match position_of_farm(&old_farms, d.farm_id) {
            Some(j) => {
                let (_, index, farm) = old_farms.remove(j);
                if farm.fingerprint.same_as(&d.fingerprint) {
                    let kept = KnownFarm { last_identification: now, ..farm };
                    proof {
                        lemma_entries_match_insert(farms.entries(), st.1, index, kept, FarmSlot::Kept(touched_farm(farm, now)));
                        lemma_entries_insert(farms.entries(), index, kept);
                    }
                    farms.insert(index, kept);
                    proof {
                        if clear {
                            lemma_entries_insert_absent(before, index, kept);
                            lemma_pairing_push_entry(before, results@, index, kept);
                        }
                    }
                } else {
                    let (sender, receiver) = expiry_channel();
                    let renewed = KnownFarm {
                        last_identification: now,
                        fingerprint: d.fingerprint,
                        expired_sender: sender,
                        ..farm
                    };
                    proof {
                        lemma_entries_match_insert(farms.entries(), st.1, index, renewed, FarmSlot::Fresh(farm.farm_id, d.fingerprint, now));
                        lemma_entries_insert(farms.entries(), index, renewed);
                    }
                    farms.insert(index, renewed);
                    let r = KnownFarmInsertResult {
                        farm_index: index,
                        farm_details: d,
                        expired_receiver: receiver,
                        add: true,
                        remove: true,
                    };
                    proof {
                        lemma_results_push(results@, r);
                        if clear {
                            lemma_entries_insert_absent(before, index, renewed);
                            lemma_pairing_push_both(before, results@, renewed, r);
                        }
                    }
                    results.push(r);
                }
            },
            None => {
                match first_free_index(others, farms) {
                    Some(i) => {
                        let (sender, receiver) = expiry_channel();
                        let farm = KnownFarm {
                            farm_id: d.farm_id,
                            fingerprint: d.fingerprint,
                            last_identification: now,
                            expired_sender: sender,
                        };
                        proof {
                            lemma_entries_match_insert(farms.entries(), st.1, i, farm, FarmSlot::Fresh(d.farm_id, d.fingerprint, now));
                            lemma_entries_insert(farms.entries(), i, farm);
                        }
                        farms.insert(i, farm);
                        let r = KnownFarmInsertResult {
                            farm_index: i,
                            farm_details: d,
                            expired_receiver: receiver,
                            add: true,
                            remove: false,
                        };
                        proof {
                            lemma_results_push(results@, r);
                            if clear {
                                lemma_first_unused(others_used.union(keys_of(before)));
                                lemma_entries_insert_absent(before, i, farm);
                                lemma_pairing_push_both(before, results@, farm, r);
                            }
                        }
                        results.push(r);
                    },
                    None => {},
                }
            },
        }
        n = n + 1;
    }
    results
}


/// How a farmer update with farmer `farmer_id`, fingerprint `fingerprint`
/// at time `now` turns `old` into `new` with results `res`, where `farms` is
/// what the farmer announced when asked (`None` when the request failed).
///
/// - A farmer known with the same fingerprint only has its farms'
///   identification time set to `now`; nothing is asked or returned.
/// - A farmer known with another fingerprint takes the new fingerprint and
///   loses its farms; each announced farm, in order, is then kept as it was
///   (same fingerprint), kept at its index with the new fingerprint and a new
///   expiry sender and returned for re-initialization (changed fingerprint),
///   or given the least index that no farmer uses, and returned for
///   initialization (new farm). A previous farm announced after a new farm
///   goes back to its index even where the new farm took it.
/// - An unknown farmer is added, when its farms could be asked, and its
///   farms are handled as new farms of a farmer without previous farms.
///
/// The returned farms have distinct indices and each index holds the farm of
/// its result, for a new farmer always, after a fingerprint change wherever
/// no index is taken back.
pub open spec fn farmer_updated(
    old: KnownFarms,
    new: KnownFarms,
    farmer_id: FarmerId,
    fingerprint: Blake3Hash,
    now: u64,
    farms: Option<Seq<ClusterFarmerFarmDetails>>,
    res: Seq<InsertResultView>,
) -> bool {
    let p = farmer_position(old.farmers(), farmer_id);
    &&& new.farms() == old.farms()
    &&& if p >= 0 {
        let farmer = old.farmers()[p];
        let updated = new.farmers()[p];
        &&& new.farmers().len() == old.farmers().len()
        &&& forall|q: int| 0 <= q < old.farmers().len() && q != p ==> #[trigger] new.farmers()[q] == old.farmers()[q]
        &&& updated.farmer_id == farmer_id
        &&& if farmer.fingerprint@ == fingerprint@ {
            &&& updated.fingerprint == farmer.fingerprint
            &&& updated.known_farms.entries() == touched_entries(farmer.known_farms.entries(), now)
            &&& res.len() == 0
        } else {
            &&& updated.fingerprint == fingerprint
            &&& match farms {
                None => updated.known_farms.entries().len() == 0 && res.len() == 0,
                Some(ds) => {
                    let st = refresh_fold(
                        farms_by_id(farmer.known_farms.entries()),
                        used_indices(old.farmers().remove(p)),
                        now,
                        ds,
                    );
                    &&& entries_match(updated.known_farms.entries(), st.1)
                    &&& res == st.2
                    &&& no_index_taken_back(
                        farms_by_id(farmer.known_farms.entries()),
                        used_indices(old.farmers().remove(p)),
                        now,
                        ds,
                    ) ==> result_indices_distinct(res) && results_placed(updated.known_farms.entries(), res)
                },
            }
        }
    } else {
        match farms {
            None => new.farmers() == old.farmers() && res.len() == 0,
            Some(ds) => {
                let st = refresh_fold(Seq::empty(), used_indices(old.farmers()), now, ds);
                let added = new.farmers().last();
                &&& new.farmers().len() == old.farmers().len() + 1
                &&& forall|q: int| 0 <= q < old.farmers().len() ==> #[trigger] new.farmers()[q] == old.farmers()[q]
                &&& added.farmer_id == farmer_id
                &&& added.fingerprint == fingerprint
                &&& entries_match(added.known_farms.entries(), st.1)
                &&& res == st.2
                &&& result_indices_distinct(res)
                &&& results_placed(added.known_farms.entries(), res)
            },
        }
    }
}

/// Where a farmer update with farmer `farmer_id`, fingerprint `fingerprint`
/// at time `now` handles announced farms `farms`, each returned receiver
/// belongs to the expiry sender stored at its index in the updated farmer:
/// for a new farmer always, after a fingerprint change wherever no index is
/// taken back.
pub open spec fn receivers_delivered(
    old: KnownFarms,
    new: KnownFarms,
    farmer_id: FarmerId,
    fingerprint: Blake3Hash,
    now: u64,
    farms: Option<Seq<ClusterFarmerFarmDetails>>,
    res: Seq<KnownFarmInsertResult>,
) -> bool {
    let p = farmer_position(old.farmers(), farmer_id);
    if p >= 0 {
        let farmer = old.farmers()[p];
        match farms {
            Some(ds) => farmer.fingerprint@ != fingerprint@ && no_index_taken_back(
                farms_by_id(farmer.known_farms.entries()),
                used_indices(old.farmers().remove(p)),
                now,
                ds,
            ) ==> receivers_paired(new.farmers()[p].known_farms.entries(), res),
            None => true,
        }
    } else {
        farms is Some ==> receivers_paired(new.farmers().last().known_farms.entries(), res)
    }
}

/// Whether an identification of farmer `farmer_id` with `fingerprint` needs
/// the farmer's farms: unless it is known with that fingerprint.
pub open spec fn needs_farms(farmers: Seq<KnownFarmer>, farmer_id: FarmerId, fingerprint: Blake3Hash) -> bool {
    let p = farmer_position(farmers, farmer_id);
    !(p >= 0 && farmers[p].fingerprint@ == fingerprint@)
}

impl KnownFarms {
    /// Whether `update_farmer` for this farmer and fingerprint will use the
    /// farmer's farms, so that they must be asked for first.
    pub fn needs_farm_details(&self, farmer_id: FarmerId, fingerprint: &Blake3Hash) -> (r: bool)
        ensures
            r == needs_farms(self.farmers(), farmer_id, *fingerprint),
    {
        match self.farmer_position(farmer_id) {
            Some(p) => !self.known_farmers[p].fingerprint.same_as(fingerprint),
            None => true,
        }
    }

    /// Records an identification of farmer `farmer_id` with `fingerprint` at
    /// time `now`; `farms` is what the farmer answered when asked for its
    /// farms, `None` if that failed (it is not looked at when
    /// `needs_farm_details` is false). Returns the farms to (re-)initialize.
    pub fn update_farmer(
        &mut self,
        farmer_id: FarmerId,
        fingerprint: Blake3Hash,
        now: u64,
        farms: Option<Vec<ClusterFarmerFarmDetails>>,
    ) -> (results: Vec<KnownFarmInsertResult>)
        requires
            old(self).wf(),
        ensures
            final(self).wf(),
            farmer_updated(
                *old(self),
                *final(self),
                farmer_id,
                fingerprint,
                now,
                match farms {
                    Some(v) => Some(v@),
                    None => None,
                },
                insert_results_view(results@),
            ),
            receivers_delivered(
                *old(self),
                *final(self),
                farmer_id,
                fingerprint,
                now,
                match farms {
                    Some(v) => Some(v@),
                    None => None,
                },
                results@,
            ),
    {
        let ghost old_farmers = self.farmers();
        proof {
            lemma_farmer_position(old_farmers, farmer_id);
        }
        match self.farmer_position(farmer_id) {
            Some(p) => {
                let mut farmer = self.known_farmers.remove(p);
                if farmer.fingerprint.same_as(&fingerprint) {
                    touch_farms(&mut farmer, now);
                    self.known_farmers.insert(p, farmer);
                    proof {
                        assert(self.farmers() =~= old_farmers.update(p as int, self.farmers()[p as int]));
                        self.lemma_wf_after_update(old_farmers, p as int);
                    }
                    return Vec::new();
                }
                let old_entries = farmer.known_farms.take_entries();
                proof {
                    lemma_farms_by_id_wf(old_entries@);
                }
                farmer.fingerprint = fingerprint;
                let old_farms = collect_by_farm_id(old_entries);
                let results = match farms {
                    None => Vec::new(),
                    Some(details) => {
                        let ghost start = old_farms@;
                        let r = refresh_farms(&self.known_farmers, &mut farmer.known_farms, old_farms, &details, now);
                        proof {
                            let st = refresh_fold(start, used_indices(self.farmers()), now, details@);
                            if no_index_taken_back(start, used_indices(self.farmers()), now, details@) {
                                lemma_refresh_fold_placement(start, used_indices(self.farmers()), now, details@);
                                lemma_results_placed(farmer.known_farms.entries(), st.1, st.2);
                            }
                        }
                        r
                    },
                };
                self.known_farmers.insert(p, farmer);
                proof {
                    assert(self.farmers() =~= old_farmers.update(p as int, self.farmers()[p as int]));
                    self.lemma_wf_after_update(old_farmers, p as int);
                    if farms.is_none() {
                        assert(insert_results_view(results@) =~= Seq::<InsertResultView>::empty());
                    }
                }
                results
            },
            None => match farms {
                None => Vec::new(),
                Some(details) => {
                    let mut known_farms: FarmIndexMap<KnownFarm> = FarmIndexMap::new();
                    let none: Vec<(FarmId, FarmIndex, KnownFarm)> = Vec::new();
                    let results = refresh_farms(&self.known_farmers, &mut known_farms, none, &details, now);
                    proof {
                        let st = refresh_fold(Seq::empty(), used_indices(old_farmers), now, details@);
                        assert(none@ =~= Seq::<(FarmId, FarmIndex, KnownFarm)>::empty());
                        lemma_no_index_taken_back_without_old(used_indices(old_farmers), now, details@);
                        lemma_refresh_fold_placement(Seq::empty(), used_indices(old_farmers), now, details@);
                        lemma_results_placed(known_farms.entries(), st.1, st.2);
                    }
                    self.known_farmers.push(KnownFarmer { farmer_id, fingerprint, known_farms });
                    proof {
                        assert forall|a: int, b: int| 0 <= a < b < self.farmers().len() implies #[trigger] self.farmers()[a].farmer_id != #[trigger] self.farmers()[b].farmer_id by {
                            if b == old_farmers.len() {
                                assert(old_farmers[a].farmer_id != farmer_id);
                            } else {
                                assert(old_farmers[a].farmer_id != old_farmers[b].farmer_id);
                            }
                        }
                    }
                    results
                },
            },
        }
    }

    /// Replacing the farmer at `p` by one with the same id and well-formed
    /// farms keeps the state well formed.
    proof fn lemma_wf_after_update(&self, old_farmers: Seq<KnownFarmer>, p: int)
        requires
            0 <= p < old_farmers.len(),
            self.farmers() == old_farmers.update(p, self.farmers()[p]),
            self.farmers()[p].farmer_id == old_farmers[p].farmer_id,
            self.farmers()[p].known_farms.wf(),
            farmer_ids_distinct(old_farmers),
            forall|f: int| 0 <= f < old_farmers.len() ==> (#[trigger] old_farmers[f]).known_farms.wf(),
            self.farms().wf(),
        ensures
            self.wf(),
    {
        assert forall|a: int, b: int| 0 <= a < b < self.farmers().len() implies #[trigger] self.farmers()[a].farmer_id != #[trigger] self.farmers()[b].farmer_id by {
            assert(old_farmers[a].farmer_id != old_farmers[b].farmer_id);
        }
    }
}


/// Time elapsed from `since` to `now`, zero when `now` is earlier (as
/// `Instant::elapsed` saturates).
pub open spec fn elapsed(now: u64, since: u64) -> int {
    if now >= since {
        now - since
    } else {
        0
    }
}

/// A farm expired when it was last identified more than two identification
/// intervals before `now`.
pub open spec fn farm_expired(f: KnownFarm, now: u64, interval: u64) -> bool {
    elapsed(now, f.last_identification) > 2 * interval
}

/// Entries whose farms have not expired, in order.
pub open spec fn unexpired_entries(e: Seq<(FarmIndex, KnownFarm)>, now: u64, interval: u64) -> Seq<(FarmIndex, KnownFarm)>
    decreases e.len(),
{
    if e.len() == 0 {
        Seq::empty()
    } else {
        let rest = unexpired_entries(e.drop_last(), now, interval);
        if farm_expired(e.last().1, now, interval) {
            rest
        } else {
            rest.push(e.last())
        }
    }
}

/// Entries whose farms expired, in order.
pub open spec fn expired_entries(e: Seq<(FarmIndex, KnownFarm)>, now: u64, interval: u64) -> Seq<(FarmIndex, KnownFarm)>
    decreases e.len(),
{
    if e.len() == 0 {
        Seq::empty()
    } else {
        let rest = expired_entries(e.drop_last(), now, interval);
        if farm_expired(e.last().1, now, interval) {
            rest.push(e.last())
        } else {
            rest
        }
    }
}

/// The unexpired entries are a part of the entries, so their keys stay
/// distinct.
pub proof fn lemma_unexpired_entries(e: Seq<(FarmIndex, KnownFarm)>, now: u64, interval: u64)
    ensures
        keys_of(unexpired_entries(e, now, interval)).subset_of(keys_of(e)),
        keys_distinct(e) ==> keys_distinct(unexpired_entries(e, now, interval)),
    decreases e.len(),
{
    if e.len() > 0 {
        let t = e.drop_last();
        let r = unexpired_entries(t, now, interval);
        let u = unexpired_entries(e, now, interval);
        lemma_unexpired_entries(t, now, interval);
        assert forall|k: FarmIndex| keys_of(u).contains(k) implies keys_of(e).contains(k) by {
            let i = choose|i: int| 0 <= i < u.len() && #[trigger] u[i].0 == k;
            if i < r.len() {
                assert(u[i] == r[i]);
                assert(keys_of(r).contains(k));
                assert(keys_of(t).contains(k));
                let j = choose|j: int| 0 <= j < t.len() && #[trigger] t[j].0 == k;
                assert(e[j].0 == k);
            } else {
                assert(e[e.len() - 1].0 == k);
            }
        }
        if keys_distinct(e) {
            assert(keys_distinct(t));
            if !farm_expired(e.last().1, now, interval) {
                assert forall|a: int, b: int| 0 <= a < b < u.len() implies #[trigger] u[a].0 != #[trigger] u[b].0 by {
                    if b == r.len() {
                        if u[a].0 == u[b].0 {
                            assert(u[a] == r[a]);
                            assert(keys_of(r).contains(u[a].0));
                            assert(keys_of(t).contains(u[a].0));
                            let j = choose|j: int| 0 <= j < t.len() && #[trigger] t[j].0 == u[a].0;
                            assert(e[j].0 == e[e.len() - 1].0);
                        }
                    } else {
                        assert(u[a] == r[a]);
                        assert(u[b] == r[b]);
                    }
                }
            }
        }
    }
}

/// Splits `entries` into the unexpired and the expired ones.
fn split_expired(entries: Vec<(FarmIndex, KnownFarm)>, now: u64, interval: u64) -> (r: (
    Vec<(FarmIndex, KnownFarm)>,
    Vec<(FarmIndex, KnownFarm)>,
))
    requires
        2 * interval <= u64::MAX,
    ensures
        r.0@ == unexpired_entries(entries@, now, interval),
        r.1@ == expired_entries(entries@, now, interval),
{
    let ghost start = entries@;
    let mut rest = entries;
    let total = rest.len();
    assert(start.len() == total);
    let ttl = 2 * interval;
    let mut done: usize = 0;
    let mut kept: Vec<(FarmIndex, KnownFarm)> = Vec::new();
    let mut expired: Vec<(FarmIndex, KnownFarm)> = Vec::new();
    while rest.len() > 0
        invariant
            done + rest@.len() == start.len(),
            start.len() <= usize::MAX,
            ttl == 2 * interval,
            rest@ == start.skip(done as int),
            kept@ == unexpired_entries(start.take(done as int), now, interval),
            expired@ == expired_entries(start.take(done as int), now, interval),
        decreases rest@.len(),
    {
        let entry = rest.remove(0);
        let ghost prefix = start.take(done as int + 1);
        proof {
            assert(prefix.drop_last() =~= start.take(done as int));
            assert(prefix.last() == start[done as int]);
        }
        let last = entry.1.last_identification;
        let age = if now >= last { now - last } else { 0 };
        if age > ttl {
            expired.push(entry);
        } else {
            kept.push(entry);
        }
        done = done + 1;
        proof {
            assert(rest@ =~= start.skip(done as int));
        }
    }
    proof {
        assert(start.take(start.len() as int) =~= start);
    }
    (kept, expired)
}

impl KnownFarms {
    /// The first farmer with id `farmer_id`, if any.
    pub fn get_known_farmer(&self, farmer_id: FarmerId) -> (r: Option<&KnownFarmer>)
        ensures
            match r {
                Some(f) => farmer_position(self.farmers(), farmer_id) >= 0
                    && *f == self.farmers()[farmer_position(self.farmers(), farmer_id)],
                None => farmer_position(self.farmers(), farmer_id) == -1,
            },
    {
        match self.farmer_position(farmer_id) {
            Some(p) => Some(&self.known_farmers[p]),
            None => None,
        }
    }

    /// Removes the farms that were last identified more than twice
    /// `identification_interval` before `now`, and returns them in order.
    pub fn remove_expired(&mut self, now: u64, identification_interval: u64) -> (removed: Vec<(FarmIndex, KnownFarm)>)
        requires
            old(self).wf(),
            2 * identification_interval <= u64::MAX,
        ensures
            final(self).wf(),
            final(self).farmers() == old(self).farmers(),
            final(self).farms().entries() == unexpired_entries(old(self).farms().entries(), now, identification_interval),
            removed@ == expired_entries(old(self).farms().entries(), now, identification_interval),
    {
        let entries = self.known_farms.take_entries();
        let (kept, expired) = split_expired(entries, now, identification_interval);
        proof {
            lemma_unexpired_entries(old(self).farms().entries(), now, identification_interval);
        }
        self.known_farms = FarmIndexMap::from_entries(kept);
        expired
    }

    /// Forgets the farm at `farm_index`.
    pub fn remove(&mut self, farm_index: FarmIndex)
        requires
            old(self).wf(),
        ensures
            final(self).wf(),
            final(self).farmers() == old(self).farmers(),
            final(self).farms().entries() == crate::index_map::entries_remove(old(self).farms().entries(), farm_index),
            final(self).farms()@ == old(self).farms()@.remove(farm_index),
    {
        self.known_farms.remove(farm_index);
    }
}

} // verus!
