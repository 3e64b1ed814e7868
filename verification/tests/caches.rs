use cluster_controller::caches::{CacheMaintenance, KnownCaches, SCHEDULE_REINITIALIZATION_DELAY};
use cluster_controller::ids::CacheId;
use std::sync::Arc;

fn pieces(ids: &[u32]) -> Vec<Arc<u32>> {
    ids.iter().map(|&i| Arc::new(i)).collect()
}

fn values(v: &[Arc<u32>]) -> Vec<u32> {
    v.iter().map(|a| **a).collect()
}

#[test]
fn discovered_caches_are_listed_in_order() {
    let mut caches: KnownCaches<u32> = KnownCaches::new();
    let mut scheduled = None;
    assert!(caches.needs_piece_caches(CacheId(1)));
    assert!(caches.update_cache(CacheId(1), 10, 12, &mut scheduled, Some(pieces(&[1, 2]))));
    assert_eq!(scheduled, Some(12 + SCHEDULE_REINITIALIZATION_DELAY));
    caches.update_cache(CacheId(2), 20, 21, &mut scheduled, Some(pieces(&[3])));
    assert_eq!(scheduled, Some(3_021));
    assert_eq!(values(&caches.get_all()), vec![1, 2, 3]);
    assert!(!caches.needs_piece_caches(CacheId(2)));
}

#[test]
fn get_all_shares_the_same_piece_caches() {
    let mut caches: KnownCaches<u32> = KnownCaches::new();
    let mut scheduled = None;
    let piece = Arc::new(7u32);
    caches.update_cache(CacheId(1), 0, 0, &mut scheduled, Some(vec![piece.clone()]));
    let all = caches.get_all();
    assert!(Arc::ptr_eq(&all[0], &piece));
}

#[test]
fn known_cache_only_refreshes_identification() {
    let mut caches: KnownCaches<u32> = KnownCaches::new();
    let mut scheduled = None;
    caches.update_cache(CacheId(1), 10, 10, &mut scheduled, Some(pieces(&[1])));
    scheduled = None;
    assert!(!caches.update_cache(CacheId(1), 50, 50, &mut scheduled, Some(pieces(&[9, 9]))));
    assert_eq!(scheduled, None);
    assert_eq!(caches.known_caches().len(), 1);
    assert_eq!(caches.known_caches()[0].last_identification, 50);
    assert_eq!(values(&caches.get_all()), vec![1]);
}

#[test]
fn failed_details_request_changes_nothing() {
    let mut caches: KnownCaches<u32> = KnownCaches::new();
    let mut scheduled = Some(5);
    assert!(!caches.update_cache(CacheId(1), 10, 10, &mut scheduled, None));
    assert_eq!(scheduled, Some(5));
    assert!(caches.known_caches().is_empty());
}

#[test]
fn expired_caches_are_removed() {
    let mut caches: KnownCaches<u32> = KnownCaches::new();
    let mut scheduled = None;
    caches.update_cache(CacheId(1), 1_000, 1_000, &mut scheduled, Some(pieces(&[1, 2])));
    caches.update_cache(CacheId(2), 5_000, 5_000, &mut scheduled, Some(pieces(&[3])));
    caches.update_cache(CacheId(3), 1_500, 1_500, &mut scheduled, Some(pieces(&[4])));
    // interval 2 s: expired when last identified more than 4 s ago
    assert!(caches.remove_expired(5_000, 2_000).is_empty());
    let removed = caches.remove_expired(5_001, 2_000);
    assert_eq!(values(&removed), vec![1, 2]);
    assert_eq!(values(&caches.get_all()), vec![3, 4]);
    // a clock earlier than the identification counts as no time elapsed
    assert!(caches.remove_expired(0, 0).is_empty());
}

#[test]
fn reinitialization_waits_for_schedule_and_previous_run() {
    let mut m: CacheMaintenance<u32> = CacheMaintenance::new();
    assert!(m.reinitialization_in_progress());
    m.cache_identified(CacheId(1), 100, 100, Some(pieces(&[1])));
    assert_eq!(m.scheduled_reinitialization_for(), Some(3_100));
    // the initial run has not finished yet
    assert!(m.poll_reinitialization(10_000).is_none());
    m.reinitialization_finished();
    assert!(m.poll_reinitialization(3_099).is_none());
    let backing = m.poll_reinitialization(3_100).expect("due");
    assert_eq!(values(&backing), vec![1]);
    assert_eq!(m.scheduled_reinitialization_for(), None);
    assert!(m.reinitialization_in_progress());
    assert!(m.poll_reinitialization(20_000).is_none());
}

#[test]
fn pruning_schedules_only_when_piece_caches_go() {
    let mut m: CacheMaintenance<u32> = CacheMaintenance::new();
    m.cache_identified(CacheId(1), 0, 0, Some(Vec::new()));
    m.cache_identified(CacheId(2), 0, 0, Some(pieces(&[5])));
    m.reinitialization_finished();
    let _ = m.poll_reinitialization(3_000);
    m.reinitialization_finished();
    assert_eq!(m.scheduled_reinitialization_for(), None);
    // cache 1 expires alone but offers no piece cache: nothing scheduled
    m.cache_identified(CacheId(2), 20_000, 20_000, None);
    assert!(m.prune(20_001, 5_000).is_empty());
    assert_eq!(m.known_caches().known_caches().len(), 1);
    assert_eq!(m.scheduled_reinitialization_for(), None);
    let removed = m.prune(40_000, 5_000);
    assert_eq!(values(&removed), vec![5]);
    assert_eq!(m.scheduled_reinitialization_for(), Some(43_000));
}

#[test]
fn close_changes_share_one_reinitialization() {
    let mut m: CacheMaintenance<u32> = CacheMaintenance::new();
    m.reinitialization_finished();
    m.cache_identified(CacheId(1), 0, 0, Some(pieces(&[1])));
    m.cache_identified(CacheId(2), 1_000, 1_000, Some(pieces(&[2])));
    // the second discovery moved the schedule
    assert!(m.poll_reinitialization(3_000).is_none());
    let backing = m.poll_reinitialization(4_000).expect("due");
    assert_eq!(values(&backing), vec![1, 2]);
    m.reinitialization_finished();
    assert!(m.poll_reinitialization(100_000).is_none());
}

#[test]
fn second_prune_at_the_same_time_removes_nothing() {
    let mut m: CacheMaintenance<u32> = CacheMaintenance::new();
    m.cache_identified(CacheId(1), 0, 0, Some(pieces(&[1])));
    m.cache_identified(CacheId(2), 9_000, 9_000, Some(pieces(&[2])));
    assert_eq!(values(&m.prune(10_001, 5_000)), vec![1]);
    assert!(m.prune(10_001, 5_000).is_empty());
    assert_eq!(values(&m.known_caches().get_all()), vec![2]);
}
