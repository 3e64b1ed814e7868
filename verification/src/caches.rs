//! Caches known to the cluster controller.
//!
//! The controller keeps, for one cache group, which caches identified
//! themselves recently and which piece caches each of them offers. A new
//! cache or an expired one schedules a reinitialization of the farmer cache
//! with all known piece caches, a short delay later, and a reinitialization
//! starts only when the previous one finished.
use crate::channel::share;
use crate::ids::CacheId;
use std::sync::Arc;
use vstd::prelude::*;

verus! {

/// Delay between a change of the known caches and the reinitialization it
/// schedules, in milliseconds.
pub const SCHEDULE_REINITIALIZATION_DELAY: u64 = 3_000;

/// A cache that identified itself, with the piece caches it offers.
pub struct KnownCache<C> {
    pub cache_id: CacheId,
    /// Time of the last identification, in milliseconds of a monotonic clock.
    pub last_identification: u64,
    pub piece_caches: Vec<Arc<C>>,
}

/// Piece caches of all `caches`, cache after cache.
pub open spec fn all_piece_caches<C>(caches: Seq<KnownCache<C>>) -> Seq<Arc<C>>
    decreases caches.len(),
{
    if caches.len() == 0 {
        Seq::empty()
    } else {
        all_piece_caches(caches.drop_last()) + caches.last().piece_caches@
    }
}

/// Cache ids occur at most once.
pub open spec fn cache_ids_distinct<C>(caches: Seq<KnownCache<C>>) -> bool {
    forall|a: int, b: int| 0 <= a < b < caches.len() ==> #[trigger] caches[a].cache_id != #[trigger] caches[b].cache_id
}

/// Position of the first cache with id `id`, or -1.
pub open spec fn cache_position<C>(caches: Seq<KnownCache<C>>, id: CacheId) -> int
    decreases caches.len(),
{
    if caches.len() == 0 {
        -1
    } else if caches[0].cache_id == id {
        0
    } else {
        let r = cache_position(caches.drop_first(), id);
        if r < 0 {
            -1
        } else {
            r + 1
        }
    }
}

pub proof fn lemma_cache_position<C>(caches: Seq<KnownCache<C>>, id: CacheId)
    ensures
        -1 <= cache_position(caches, id) < caches.len(),
        cache_position(caches, id) >= 0 ==> caches[cache_position(caches, id)].cache_id == id,
        forall|q: int| 0 <= q < caches.len() && (q < cache_position(caches, id) || cache_position(caches, id) == -1)
            ==> #[trigger] caches[q].cache_id != id,
    decreases caches.len(),
{
    if caches.len() > 0 && caches[0].cache_id != id {
        let t = caches.drop_first();
        lemma_cache_position(t, id);
        assert forall|q: int| 0 <= q < caches.len() && (q < cache_position(caches, id) || cache_position(caches, id) == -1)
            implies #[trigger] caches[q].cache_id != id by {
            if q > 0 {
                assert(caches[q] == t[q - 1]);
            }
        }
    }
}

/// A cache expired when it was last identified more than two identification
/// intervals before `now` (elapsed time saturating at zero).
pub open spec fn cache_expired<C>(c: KnownCache<C>, now: u64, interval: u64) -> bool {
    (if now >= c.last_identification { now - c.last_identification } else { 0 }) > 2 * interval
}

/// Caches that have not expired, in order.
pub open spec fn unexpired_caches<C>(caches: Seq<KnownCache<C>>, now: u64, interval: u64) -> Seq<KnownCache<C>>
    decreases caches.len(),
{
    if caches.len() == 0 {
        Seq::empty()
    } else {
        let rest = unexpired_caches(caches.drop_last(), now, interval);
        if cache_expired(caches.last(), now, interval) {
            rest
        } else {
            rest.push(caches.last())
        }
    }
}

/// Caches that expired, in order.
pub open spec fn expired_caches<C>(caches: Seq<KnownCache<C>>, now: u64, interval: u64) -> Seq<KnownCache<C>>
    decreases caches.len(),
{
    if caches.len() == 0 {
        Seq::empty()
    } else {
        let rest = expired_caches(caches.drop_last(), now, interval);
        if cache_expired(caches.last(), now, interval) {
            rest.push(caches.last())
        } else {
            rest
        }
    }
}

/// The caches known for one cache group.
pub struct KnownCaches<C> {
    known_caches: Vec<KnownCache<C>>,
}

impl<C> KnownCaches<C> {
    /// The known caches, in the order they were discovered.
    pub closed spec fn caches(&self) -> Seq<KnownCache<C>> {
        self.known_caches@
    }

    /// Cache ids are distinct.
    pub open spec fn wf(&self) -> bool {
        cache_ids_distinct(self.caches())
    }

    /// No caches.
    pub fn new() -> (r: Self)
        ensures
            r.wf(),
            r.caches() == Seq::<KnownCache<C>>::empty(),
    {
        KnownCaches { known_caches: Vec::new() }
    }

    /// The known caches.
    pub fn known_caches(&self) -> (r: &Vec<KnownCache<C>>)
        ensures
            r@ == self.caches(),
    {
        &self.known_caches
    }

    /// Position of the first cache with id `cache_id`.
    fn position(&self, cache_id: CacheId) -> (r: Option<usize>)
        ensures
            match r {
                Some(p) => p == cache_position(self.caches(), cache_id),
                None => cache_position(self.caches(), cache_id) == -1,
            },
    {
        proof {
            lemma_cache_position(self.caches(), cache_id);
        }
        let mut i: usize = 0;
        while i < self.known_caches.len()
            invariant
                i <= self.known_caches@.len(),
                forall|q: int| 0 <= q < i ==> #[trigger] self.known_caches@[q].cache_id != cache_id,
                -1 <= cache_position(self.caches(), cache_id) < self.caches().len(),
                cache_position(self.caches(), cache_id) >= 0 ==> self.caches()[cache_position(self.caches(), cache_id)].cache_id == cache_id,
                forall|q: int| 0 <= q < self.caches().len() && (q < cache_position(self.caches(), cache_id) || cache_position(self.caches(), cache_id) == -1)
                    ==> #[trigger] self.caches()[q].cache_id != cache_id,
            decreases self.known_caches@.len() - i,
        {
            if self.known_caches[i].cache_id == cache_id {
                return Some(i);
            }
            i = i + 1;
        }
        None
    }

    /// Whether cache `cache_id` is unknown, so that `update_cache` will use
    /// the piece caches it offers, which must then be asked for first.
    pub fn needs_piece_caches(&self, cache_id: CacheId) -> (r: bool)
        ensures
            r == (cache_position(self.caches(), cache_id) == -1),
    {
        self.position(cache_id).is_none()
    }

    /// All piece caches of all known caches, cache after cache.
    pub fn get_all(&self) -> (r: Vec<Arc<C>>)
        ensures
            r@ == all_piece_caches(self.caches()),
    {
        let mut all: Vec<Arc<C>> = Vec::new();
        let mut i: usize = 0;
        while i < self.known_caches.len()
            invariant
                i <= self.caches().len(),
                all@ == all_piece_caches(self.caches().take(i as int)),
            decreases self.caches().len() - i,
        {
            let pieces = &self.known_caches[i].piece_caches;
            let ghost before = all@;
            let mut j: usize = 0;
            while j < pieces.len()
                invariant
                    i < self.caches().len(),
                    pieces == self.caches()[i as int].piece_caches,
                    j <= pieces@.len(),
                    all@ == before + pieces@.take(j as int),
                decreases pieces@.len() - j,
            {
                all.push(share(&pieces[j]));
                proof {
                    assert(pieces@.take(j as int + 1) =~= pieces@.take(j as int).push(pieces@[j as int]));
                    assert(all@ =~= before + pieces@.take(j as int + 1));
                }
                j = j + 1;
            }
            proof {
                assert(pieces@.take(pieces@.len() as int) =~= pieces@);
                assert(self.caches().take(i as int + 1).drop_last() =~= self.caches().take(i as int));
            }
            i = i + 1;
        }
        proof {
            assert(self.caches().take(self.caches().len() as int) =~= self.caches());
        }
        all
    }

    /// Records an identification of cache `cache_id` made at `identified_at`.
    /// A known cache only has its identification time updated. An unknown
    /// one is added, with the piece caches it offers (`None` when asking for
    /// them failed, and then nothing changes), and a reinitialization is
    /// scheduled at `now` plus the delay. Returns `true` exactly when a cache
    /// was added, that is when the farmer cache must be reinitialized.
    pub fn update_cache(
        &mut self,
        cache_id: CacheId,
        identified_at: u64,
        now: u64,
        scheduled_reinitialization_for: &mut Option<u64>,
        piece_caches: Option<Vec<Arc<C>>>,
    ) -> (added: bool)
        requires
            old(self).wf(),
            now + SCHEDULE_REINITIALIZATION_DELAY <= u64::MAX,
        ensures
            final(self).wf(),
            added == (cache_position(old(self).caches(), cache_id) == -1 && piece_caches is Some),
            ({
                let p = cache_position(old(self).caches(), cache_id);
                if p >= 0 {
                    &&& final(self).caches() == old(self).caches().update(
                        p,
                        KnownCache { last_identification: identified_at, ..old(self).caches()[p] },
                    )
                    &&& *final(scheduled_reinitialization_for) == *old(scheduled_reinitialization_for)
                } else {
                    match piece_caches {
                        None => {
                            &&& final(self).caches() == old(self).caches()
                            &&& *final(scheduled_reinitialization_for) == *old(scheduled_reinitialization_for)
                        },
                        Some(v) => {
                            &&& final(self).caches() == old(self).caches().push(
                                KnownCache { cache_id, last_identification: identified_at, piece_caches: v },
                            )
                            &&& *final(scheduled_reinitialization_for) == Some(
                                (now + SCHEDULE_REINITIALIZATION_DELAY) as u64,
                            )
                        },
                    }
                }
            }),
    {
        proof {
            lemma_cache_position(old(self).caches(), cache_id);
        }
        match self.position(cache_id) {
            Some(p) => {
                let mut cache = self.known_caches.remove(p);
                cache.last_identification = identified_at;
                self.known_caches.insert(p, cache);
                proof {
                    assert(self.caches() =~= old(self).caches().update(
                        p as int,
                        KnownCache { last_identification: identified_at, ..old(self).caches()[p as int] },
                    ));
                    assert forall|a: int, b: int| 0 <= a < b < self.caches().len() implies #[trigger] self.caches()[a].cache_id != #[trigger] self.caches()[b].cache_id by {
                        assert(old(self).caches()[a].cache_id != old(self).caches()[b].cache_id);
                    }
                }
                false
            },
            None => {
                match piece_caches {
                    None => false,
                    Some(piece_caches) => {
                        *scheduled_reinitialization_for = Some(now + SCHEDULE_REINITIALIZATION_DELAY);
                        self.known_caches.push(KnownCache { cache_id, last_identification: identified_at, piece_caches });
                        proof {
                            assert forall|a: int, b: int| 0 <= a < b < self.caches().len() implies #[trigger] self.caches()[a].cache_id != #[trigger] self.caches()[b].cache_id by {
                                if b < old(self).caches().len() {
                                    assert(old(self).caches()[a].cache_id != old(self).caches()[b].cache_id);
                                } else {
                                    assert(old(self).caches()[a].cache_id != cache_id);
                                }
                            }
                        }
                        true
                    },
                }
            },
        }
    }

    /// Removes the caches last identified more than twice
    /// `identification_interval` before `now`, and returns their piece
    /// caches, cache after cache.
    pub fn remove_expired(&mut self, now: u64, identification_interval: u64) -> (removed: Vec<Arc<C>>)
        requires
            old(self).wf(),
            2 * identification_interval <= u64::MAX,
        ensures
            final(self).wf(),
            final(self).caches() == unexpired_caches(old(self).caches(), now, identification_interval),
            removed@ == all_piece_caches(expired_caches(old(self).caches(), now, identification_interval)),
    {
        let ghost start = self.caches();
        let ttl = 2 * identification_interval;
        let mut rest: Vec<KnownCache<C>> = Vec::new();
        std::mem::swap(&mut rest, &mut self.known_caches);
        let total = rest.len();
        assert(start.len() == total);
        let mut done: usize = 0;
        let mut removed: Vec<Arc<C>> = Vec::new();
        while rest.len() > 0
            invariant
                done + rest@.len() == start.len(),
                start.len() <= usize::MAX,
                ttl == 2 * identification_interval,
                rest@ == start.skip(done as int),
                self.known_caches@ == unexpired_caches(start.take(done as int), now, identification_interval),
                removed@ == all_piece_caches(expired_caches(start.take(done as int), now, identification_interval)),
            decreases rest@.len(),
        {
            let cache = rest.remove(0);
            let ghost prefix = start.take(done as int + 1);
            proof {
                assert(prefix.drop_last() =~= start.take(done as int));
                assert(prefix.last() == start[done as int]);
            }
            let last = cache.last_identification;
            let age = if now >= last { now - last } else { 0 };
            if age > ttl {
                let ghost before = removed@;
                let mut pieces = cache.piece_caches;
                removed.append(&mut pieces);
                proof {
                    let ex = expired_caches(prefix, now, identification_interval);
                    assert(ex.drop_last() =~= expired_caches(start.take(done as int), now, identification_interval));
                }
            } else {
                self.known_caches.push(cache);
            }
            done = done + 1;
            proof {
                assert(rest@ =~= start.skip(done as int));
            }
        }
        proof {
            assert(start.take(start.len() as int) =~= start);
            lemma_unexpired_caches_distinct(start, now, identification_interval);
        }
        removed
    }
}

/// Unexpired caches are taken from the caches in order, so their ids stay
/// distinct.
pub proof fn lemma_unexpired_caches_distinct<C>(caches: Seq<KnownCache<C>>, now: u64, interval: u64)
    ensures
        forall|i: int| 0 <= i < unexpired_caches(caches, now, interval).len() ==> caches.contains(
            #[trigger] unexpired_caches(caches, now, interval)[i],
        ),
        cache_ids_distinct(caches) ==> cache_ids_distinct(unexpired_caches(caches, now, interval)),
    decreases caches.len(),
{
    if caches.len() > 0 {
        let t = caches.drop_last();
        let r = unexpired_caches(t, now, interval);
        let u = unexpired_caches(caches, now, interval);
        lemma_unexpired_caches_distinct(t, now, interval);
        assert forall|i: int| 0 <= i < u.len() implies caches.contains(#[trigger] u[i]) by {
            if i < r.len() {
                assert(u[i] == r[i]);
                assert(t.contains(r[i]));
                let j = choose|j: int| 0 <= j < t.len() && t[j] == r[i];
                assert(caches[j] == r[i]);
            } else {
                assert(caches[caches.len() - 1] == u[i]);
            }
        }
        if cache_ids_distinct(caches) && !cache_expired(caches.last(), now, interval) {
            assert forall|a: int, b: int| 0 <= a < b < u.len() implies #[trigger] u[a].cache_id != #[trigger] u[b].cache_id by {
                if b == r.len() {
                    assert(u[a] == r[a]);
                    assert(t.contains(r[a]));
                    let j = choose|j: int| 0 <= j < t.len() && t[j] == r[a];
                    assert(caches[j].cache_id != caches[caches.len() - 1].cache_id);
                } else {
                    assert(u[a] == r[a]);
                    assert(u[b] == r[b]);
                }
            }
        }
    }
}


/// How a step of the cache maintenance loop changes the schedule.
pub enum ReinitStep {
    /// A change at this time (a cache added, or piece caches expired)
    /// schedules a reinitialization the delay later.
    Trigger(u64),
    /// A step that leaves the schedule alone.
    Quiet,
    /// A reinitialization started at this time, clearing the schedule.
    Start(u64),
}

/// The schedule after a step.
pub open spec fn schedule_after(s: Option<u64>, step: ReinitStep) -> Option<u64> {
    match step {
        ReinitStep::Trigger(t) => Some((t + SCHEDULE_REINITIALIZATION_DELAY) as u64),
        ReinitStep::Quiet => s,
        ReinitStep::Start(_) => None,
    }
}

/// Whether a poll at `now` starts a reinitialization: none runs and the
/// scheduled one is due.
pub open spec fn starts_reinitialization<C>(m: CacheMaintenance<C>, now: u64) -> bool {
    !m.in_progress() && m.scheduled() is Some && m.scheduled()->0 <= now
}

/// State of the cache maintenance loop of one cache group.
pub struct CacheMaintenance<C> {
    known_caches: KnownCaches<C>,
    scheduled_reinitialization_for: Option<u64>,
    reinitialization_in_progress: bool,
}

impl<C> CacheMaintenance<C> {
    pub closed spec fn caches(&self) -> KnownCaches<C> {
        self.known_caches
    }

    /// When the next reinitialization is due, if one is scheduled.
    pub closed spec fn scheduled(&self) -> Option<u64> {
        self.scheduled_reinitialization_for
    }

    /// Whether a reinitialization is running.
    pub closed spec fn in_progress(&self) -> bool {
        self.reinitialization_in_progress
    }

    pub open spec fn wf(&self) -> bool {
        self.caches().wf()
    }

    /// No caches and nothing scheduled; the loop starts with a
    /// reinitialization that finishes at once without effect.
    pub fn new() -> (r: Self)
        ensures
            r.wf(),
            r.caches().caches().len() == 0,
            r.scheduled() is None,
            r.in_progress(),
    {
        CacheMaintenance {
            known_caches: KnownCaches::new(),
            scheduled_reinitialization_for: None,
            reinitialization_in_progress: true,
        }
    }

    /// The known caches.
    pub fn known_caches(&self) -> (r: &KnownCaches<C>)
        ensures
            *r == self.caches(),
    {
        &self.known_caches
    }

    /// When the next reinitialization is due.
    pub fn scheduled_reinitialization_for(&self) -> (r: Option<u64>)
        ensures
            r == self.scheduled(),
    {
        self.scheduled_reinitialization_for
    }

    /// Whether a reinitialization is running.
    pub fn reinitialization_in_progress(&self) -> (r: bool)
        ensures
            r == self.in_progress(),
    {
        self.reinitialization_in_progress
    }

    /// At `now`, when no reinitialization runs and one is due, it starts:
    /// the schedule is cleared and all known piece caches are handed out to
    /// become the farmer cache's backing caches.
    pub fn poll_reinitialization(&mut self, now: u64) -> (r: Option<Vec<Arc<C>>>)
        ensures
            final(self).caches() == old(self).caches(),
            final(self).scheduled() == schedule_after(
                old(self).scheduled(),
                if r is Some { ReinitStep::Start(now) } else { ReinitStep::Quiet },
            ),
            if starts_reinitialization(*old(self), now) {
                &&& r is Some
                &&& r->0@ == all_piece_caches(old(self).caches().caches())
                &&& final(self).scheduled() is None
                &&& final(self).in_progress()
            } else {
                &&& r is None
                &&& final(self).scheduled() == old(self).scheduled()
                &&& final(self).in_progress() == old(self).in_progress()
            },
    {
        if self.reinitialization_in_progress {
            return None;
        }
        match self.scheduled_reinitialization_for {
            Some(time) => {
                if time <= now {
                    self.scheduled_reinitialization_for = None;
                    self.reinitialization_in_progress = true;
                    Some(self.known_caches.get_all())
                } else {
                    None
                }
            },
            None => None,
        }
    }

    /// The running reinitialization finished.
    pub fn reinitialization_finished(&mut self)
        ensures
            final(self).scheduled() == schedule_after(old(self).scheduled(), ReinitStep::Quiet),
            final(self).caches() == old(self).caches(),
            final(self).scheduled() == old(self).scheduled(),
            !final(self).in_progress(),
    {
        self.reinitialization_in_progress = false;
    }

    /// Whether an identification of `cache_id` needs its piece caches.
    pub fn needs_piece_caches(&self, cache_id: CacheId) -> (r: bool)
        ensures
            r == (cache_position(self.caches().caches(), cache_id) == -1),
    {
        self.known_caches.needs_piece_caches(cache_id)
    }

    /// Cache `cache_id` identified itself at `identified_at`; see
    /// [`KnownCaches::update_cache`]. Returns whether it was added.
    pub fn cache_identified(
        &mut self,
        cache_id: CacheId,
        identified_at: u64,
        now: u64,
        piece_caches: Option<Vec<Arc<C>>>,
    ) -> (added: bool)
        requires
            old(self).wf(),
            now + SCHEDULE_REINITIALIZATION_DELAY <= u64::MAX,
        ensures
            final(self).wf(),
            added == (cache_position(old(self).caches().caches(), cache_id) == -1 && piece_caches is Some),
            final(self).scheduled() == schedule_after(
                old(self).scheduled(),
                if added { ReinitStep::Trigger(now) } else { ReinitStep::Quiet },
            ),
            final(self).in_progress() == old(self).in_progress(),
            ({
                let p = cache_position(old(self).caches().caches(), cache_id);
                if p >= 0 {
                    &&& final(self).caches().caches() == old(self).caches().caches().update(
                        p,
                        KnownCache { last_identification: identified_at, ..old(self).caches().caches()[p] },
                    )
                    &&& final(self).scheduled() == old(self).scheduled()
                } else {
                    match piece_caches {
                        None => {
                            &&& final(self).caches().caches() == old(self).caches().caches()
                            &&& final(self).scheduled() == old(self).scheduled()
                        },
                        Some(v) => {
                            &&& final(self).caches().caches() == old(self).caches().caches().push(
                                KnownCache { cache_id, last_identification: identified_at, piece_caches: v },
                            )
                            &&& final(self).scheduled() == Some((now + SCHEDULE_REINITIALIZATION_DELAY) as u64)
                        },
                    }
                }
            }),
    {
        self.known_caches.update_cache(
            cache_id,
            identified_at,
            now,
            &mut self.scheduled_reinitialization_for,
            piece_caches,
        )
    }

    /// Pruning at `now`: caches last identified more than twice
    /// `identification_interval` before are forgotten, and their piece
    /// caches handed back; if there were any, a reinitialization is
    /// scheduled at `now` plus the delay.
    pub fn prune(&mut self, now: u64, identification_interval: u64) -> (removed: Vec<Arc<C>>)
        requires
            old(self).wf(),
            2 * identification_interval <= u64::MAX,
            now + SCHEDULE_REINITIALIZATION_DELAY <= u64::MAX,
        ensures
            final(self).wf(),
            final(self).in_progress() == old(self).in_progress(),
            final(self).caches().caches() == unexpired_caches(old(self).caches().caches(), now, identification_interval),
            removed@ == all_piece_caches(expired_caches(old(self).caches().caches(), now, identification_interval)),
            final(self).scheduled() == schedule_after(
                old(self).scheduled(),
                if removed@.len() > 0 { ReinitStep::Trigger(now) } else { ReinitStep::Quiet },
            ),
            final(self).scheduled() == if removed@.len() > 0 {
                Some((now + SCHEDULE_REINITIALIZATION_DELAY) as u64)
            } else {
                old(self).scheduled()
            },
    {
        let removed = self.known_caches.remove_expired(now, identification_interval);
        if removed.len() > 0 {
            self.scheduled_reinitialization_for = Some(now + SCHEDULE_REINITIALIZATION_DELAY);
        }
        removed
    }
}


/// Pruning neither loses nor invents piece caches: those of the kept caches
/// and those handed back are, together, the piece caches known before.
pub proof fn lemma_pruning_conserves_piece_caches<C>(caches: Seq<KnownCache<C>>, now: u64, interval: u64)
    ensures
        all_piece_caches(caches).to_multiset() =~= all_piece_caches(unexpired_caches(caches, now, interval)).to_multiset().add(
            all_piece_caches(expired_caches(caches, now, interval)).to_multiset(),
        ),
    decreases caches.len(),
{
    broadcast use vstd::seq_lib::lemma_multiset_commutative;
    if caches.len() == 0 {
        broadcast use vstd::seq_lib::group_to_multiset_ensures;
        let e = Seq::<Arc<C>>::empty();
        assert(e.to_multiset().len() == 0);
        assert(e.to_multiset() =~= vstd::multiset::Multiset::empty());
    } else {
        lemma_pruning_conserves_piece_caches(caches.drop_last(), now, interval);
        let last = caches.last();
        if cache_expired(last, now, interval) {
            assert(expired_caches(caches, now, interval).drop_last() == expired_caches(caches.drop_last(), now, interval));
        } else {
            assert(unexpired_caches(caches, now, interval).drop_last() == unexpired_caches(caches.drop_last(), now, interval));
        }
    }
}

/// Pruning keeps exactly the caches that have not expired, and hands back
/// only expired ones.
pub proof fn lemma_pruning_keeps_fresh_caches<C>(caches: Seq<KnownCache<C>>, now: u64, interval: u64)
    ensures
        forall|i: int| 0 <= i < unexpired_caches(caches, now, interval).len()
            ==> !cache_expired(#[trigger] unexpired_caches(caches, now, interval)[i], now, interval),
        forall|i: int| 0 <= i < expired_caches(caches, now, interval).len()
            ==> cache_expired(#[trigger] expired_caches(caches, now, interval)[i], now, interval),
        unexpired_caches(caches, now, interval).len() + expired_caches(caches, now, interval).len() == caches.len(),
    decreases caches.len(),
{
    if caches.len() > 0 {
        lemma_pruning_keeps_fresh_caches(caches.drop_last(), now, interval);
        let u = unexpired_caches(caches, now, interval);
        let e = expired_caches(caches, now, interval);
        let u0 = unexpired_caches(caches.drop_last(), now, interval);
        let e0 = expired_caches(caches.drop_last(), now, interval);
        assert forall|i: int| 0 <= i < u.len() implies !cache_expired(#[trigger] u[i], now, interval) by {
            if i < u0.len() {
                assert(u[i] == u0[i]);
            }
        }
        assert forall|i: int| 0 <= i < e.len() implies cache_expired(#[trigger] e[i], now, interval) by {
            if i < e0.len() {
                assert(e[i] == e0[i]);
            }
        }
    }
}


/// A cache expires exactly when more than twice the identification interval
/// has passed since its last identification: pruning at `now` keeps every
/// cache identified at most `2 * interval` before `now` (or later), and
/// removes every other.
pub proof fn lemma_expiry_threshold<C>(caches: Seq<KnownCache<C>>, now: u64, interval: u64)
    ensures
        forall|c: KnownCache<C>| cache_expired(c, now, interval) <==> now - c.last_identification > 2 * interval,
        forall|i: int| 0 <= i < caches.len() && now - (#[trigger] caches[i]).last_identification <= 2 * interval
            ==> unexpired_caches(caches, now, interval).contains(caches[i]),
        forall|i: int| 0 <= i < caches.len() && now - (#[trigger] caches[i]).last_identification > 2 * interval
            ==> expired_caches(caches, now, interval).contains(caches[i]),
    decreases caches.len(),
{
    if caches.len() > 0 {
        let t = caches.drop_last();
        lemma_expiry_threshold(t, now, interval);
        let u = unexpired_caches(caches, now, interval);
        let e = expired_caches(caches, now, interval);
        let u0 = unexpired_caches(t, now, interval);
        let e0 = expired_caches(t, now, interval);
        assert forall|i: int| 0 <= i < caches.len() && now - (#[trigger] caches[i]).last_identification <= 2 * interval
            implies u.contains(caches[i]) by {
            if i == caches.len() - 1 {
                assert(u[u.len() - 1] == caches[i]);
            } else {
                assert(t[i] == caches[i]);
                assert(u0.contains(t[i]));
                let k = choose|k: int| 0 <= k < u0.len() && u0[k] == t[i];
                assert(u[k] == u0[k]);
            }
        }
        assert forall|i: int| 0 <= i < caches.len() && now - (#[trigger] caches[i]).last_identification > 2 * interval
            implies e.contains(caches[i]) by {
            if i == caches.len() - 1 {
                assert(e[e.len() - 1] == caches[i]);
            } else {
                assert(t[i] == caches[i]);
                assert(e0.contains(t[i]));
                let k = choose|k: int| 0 <= k < e0.len() && e0[k] == t[i];
                assert(e[k] == e0[k]);
            }
        }
    }
}

/// Discovering a cache appends its piece caches to all known piece caches.
pub proof fn lemma_discovery_appends_piece_caches<C>(caches: Seq<KnownCache<C>>, cache: KnownCache<C>)
    ensures
        all_piece_caches(caches.push(cache)) == all_piece_caches(caches) + cache.piece_caches@,
{
    assert(caches.push(cache).drop_last() == caches);
}

/// A repeated identification, which only changes an identification time,
/// leaves all known piece caches as they were.
pub proof fn lemma_identification_keeps_piece_caches<C>(caches: Seq<KnownCache<C>>, p: int, t: u64)
    requires
        0 <= p < caches.len(),
    ensures
        all_piece_caches(caches.update(p, KnownCache { last_identification: t, ..caches[p] })) == all_piece_caches(caches),
    decreases caches.len(),
{
    let u = caches.update(p, KnownCache { last_identification: t, ..caches[p] });
    if p < caches.len() - 1 {
        lemma_identification_keeps_piece_caches(caches.drop_last(), p, t);
        assert(u.drop_last() =~= caches.drop_last().update(p, KnownCache { last_identification: t, ..caches[p] }));
    } else {
        assert(u.drop_last() =~= caches.drop_last());
    }
}


/// Ids of the caches.
pub open spec fn cache_ids<C>(caches: Seq<KnownCache<C>>) -> Set<CacheId> {
    Set::new(|id: CacheId| exists|i: int| 0 <= i < caches.len() && (#[trigger] caches[i]).cache_id == id)
}

/// An identification adds the cache's id when the cache is added, and
/// changes no id when only an identification time changes.
pub proof fn lemma_update_cache_ids<C>(caches: Seq<KnownCache<C>>, cache: KnownCache<C>, p: int, t: u64)
    requires
        0 <= p < caches.len(),
    ensures
        cache_ids(caches.push(cache)) == cache_ids(caches).insert(cache.cache_id),
        cache_ids(caches.update(p, KnownCache { last_identification: t, ..caches[p] })) == cache_ids(caches),
{
    let pushed = caches.push(cache);
    assert forall|id: CacheId| cache_ids(pushed).contains(id) <==> cache_ids(caches).insert(cache.cache_id).contains(id) by {
        if cache_ids(pushed).contains(id) {
            let i = choose|i: int| 0 <= i < pushed.len() && (#[trigger] pushed[i]).cache_id == id;
            if i < caches.len() {
                assert(caches[i] == pushed[i]);
            }
        }
        if cache_ids(caches).contains(id) {
            let i = choose|i: int| 0 <= i < caches.len() && (#[trigger] caches[i]).cache_id == id;
            assert(pushed[i] == caches[i]);
        }
        if id == cache.cache_id {
            assert(pushed[caches.len() as int] == cache);
        }
    }
    assert(cache_ids(pushed) =~= cache_ids(caches).insert(cache.cache_id));
    let updated = caches.update(p, KnownCache { last_identification: t, ..caches[p] });
    assert forall|id: CacheId| cache_ids(updated).contains(id) <==> cache_ids(caches).contains(id) by {
        if cache_ids(updated).contains(id) {
            let i = choose|i: int| 0 <= i < updated.len() && (#[trigger] updated[i]).cache_id == id;
            assert(caches[i].cache_id == id);
        }
        if cache_ids(caches).contains(id) {
            let i = choose|i: int| 0 <= i < caches.len() && (#[trigger] caches[i]).cache_id == id;
            assert(updated[i].cache_id == id);
        }
    }
    assert(cache_ids(updated) =~= cache_ids(caches));
}

/// Pruning twice at the same time: the second prune removes nothing.
pub proof fn lemma_pruning_is_idempotent<C>(caches: Seq<KnownCache<C>>, now: u64, interval: u64)
    ensures
        unexpired_caches(unexpired_caches(caches, now, interval), now, interval) == unexpired_caches(caches, now, interval),
        expired_caches(unexpired_caches(caches, now, interval), now, interval).len() == 0,
    decreases caches.len(),
{
    if caches.len() > 0 {
        lemma_pruning_is_idempotent(caches.drop_last(), now, interval);
        let u0 = unexpired_caches(caches.drop_last(), now, interval);
        if !cache_expired(caches.last(), now, interval) {
            let u = u0.push(caches.last());
            assert(u.drop_last() == u0);
            assert(u.last() == caches.last());
        }
    }
}

/// No reinitialization starts while one runs.
pub proof fn lemma_no_overlapping_reinitialization<C>(m: CacheMaintenance<C>, now: u64)
    requires
        m.in_progress(),
    ensures
        !starts_reinitialization(m, now),
{
}

/// The schedule after a run of steps, starting with none.
pub open spec fn schedule_of(run: Seq<ReinitStep>) -> Option<u64>
    decreases run.len(),
{
    if run.len() == 0 {
        None
    } else {
        schedule_after(schedule_of(run.drop_last()), run.last())
    }
}

/// Time of the latest trigger since the latest start, if any.
pub open spec fn latest_trigger(run: Seq<ReinitStep>) -> Option<u64>
    decreases run.len(),
{
    if run.len() == 0 {
        None
    } else {
        match run.last() {
            ReinitStep::Trigger(t) => Some(t),
            ReinitStep::Quiet => latest_trigger(run.drop_last()),
            ReinitStep::Start(_) => None,
        }
    }
}

/// A run the loop can make: triggers leave room for the delay on the
/// clock, and a reinitialization starts only when one is scheduled and due
/// (as `poll_reinitialization` ensures).
pub open spec fn valid_run(run: Seq<ReinitStep>) -> bool {
    &&& forall|k: int| 0 <= k < run.len() && (#[trigger] run[k]) is Trigger
        ==> run[k]->Trigger_0 + SCHEDULE_REINITIALIZATION_DELAY <= u64::MAX
    &&& forall|k: int| 0 <= k < run.len() && (#[trigger] run[k]) is Start ==> {
        let s = schedule_of(run.take(k));
        s is Some && s->0 <= run[k]->Start_0
    }
}

/// The schedule is the delay after the latest trigger since the latest
/// start, and nothing when there was none.
pub proof fn lemma_schedule_follows_latest_trigger(run: Seq<ReinitStep>)
    requires
        forall|k: int| 0 <= k < run.len() && (#[trigger] run[k]) is Trigger
            ==> run[k]->Trigger_0 + SCHEDULE_REINITIALIZATION_DELAY <= u64::MAX,
    ensures
        schedule_of(run) == match latest_trigger(run) {
            Some(t) => Some((t + SCHEDULE_REINITIALIZATION_DELAY) as u64),
            None => None::<u64>,
        },
        latest_trigger(run) is Some ==> latest_trigger(run)->0 + SCHEDULE_REINITIALIZATION_DELAY <= u64::MAX,
    decreases run.len(),
{
    if run.len() > 0 {
        if run.last() is Trigger {
            assert(run[run.len() - 1] is Trigger);
        }
        let t = run.drop_last();
        assert forall|k: int| 0 <= k < t.len() && (#[trigger] t[k]) is Trigger
            implies t[k]->Trigger_0 + SCHEDULE_REINITIALIZATION_DELAY <= u64::MAX by {
            assert(t[k] == run[k]);
        }
        lemma_schedule_follows_latest_trigger(t);
    }
}

/// Over any run of the loop, every reinitialization starts after a trigger
/// since the previous start (or since the beginning), and no sooner than the
/// delay (three seconds) after the latest such trigger.
pub proof fn lemma_reinitialization_follows_trigger(run: Seq<ReinitStep>, k: int)
    requires
        valid_run(run),
        0 <= k < run.len(),
        run[k] is Start,
    ensures
        latest_trigger(run.take(k)) is Some,
        run[k]->Start_0 >= latest_trigger(run.take(k))->0 + SCHEDULE_REINITIALIZATION_DELAY,
        run[k]->Start_0 >= latest_trigger(run.take(k))->0 + 3_000,
{
    let prefix = run.take(k);
    assert forall|q: int| 0 <= q < prefix.len() && (#[trigger] prefix[q]) is Trigger
        implies prefix[q]->Trigger_0 + SCHEDULE_REINITIALIZATION_DELAY <= u64::MAX by {
        assert(prefix[q] == run[q]);
    }
    lemma_schedule_follows_latest_trigger(prefix);
}

} // verus!
