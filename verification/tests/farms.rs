use cluster_controller::farms::KnownFarms;
use cluster_controller::ids::{Blake3Hash, ClusterFarmerFarmDetails, FarmId, FarmerId};
use futures::channel::oneshot::Canceled;
use futures::executor::block_on;

fn hash(b: u8) -> Blake3Hash {
    Blake3Hash([b; 32])
}

fn details(id: u128, fp: u8) -> ClusterFarmerFarmDetails {
    ClusterFarmerFarmDetails { farm_id: FarmId(id), total_sectors_count: 10, fingerprint: hash(fp) }
}

fn farm_indices(farms: &KnownFarms, farmer: FarmerId) -> Vec<(u16, u128, u64)> {
    let farmer = farms.get_known_farmer(farmer).expect("farmer is known");
    (0..farmer.known_farms.len())
        .map(|i| {
            let (index, farm) = farmer.known_farms.entry(i);
            (*index, farm.farm_id.0, farm.last_identification)
        })
        .collect()
}

#[test]
fn fingerprint_equality() {
    assert!(hash(3).same_as(&hash(3)));
    let mut other = [3u8; 32];
    other[31] = 4;
    assert!(!hash(3).same_as(&Blake3Hash(other)));
}

#[test]
fn first_free_index_of_empty_state() {
    let farms = KnownFarms::new();
    assert_eq!(farms.pick_farmer_index(), Some(0));
    assert!(farms.needs_farm_details(FarmerId(1), &hash(1)));
}

#[test]
fn new_farmer_farms_get_distinct_indices() {
    let mut farms = KnownFarms::new();
    let results = farms.update_farmer(FarmerId(1), hash(1), 100, Some(vec![details(10, 1), details(11, 1)]));
    let views: Vec<_> = results.iter().map(|r| (r.farm_index, r.farm_details.farm_id.0, r.add, r.remove)).collect();
    assert_eq!(views, vec![(0, 10, true, false), (1, 11, true, false)]);
    assert_eq!(farm_indices(&farms, FarmerId(1)), vec![(0, 10, 100), (1, 11, 100)]);
    assert_eq!(farms.pick_farmer_index(), Some(2));
    // a second farmer gets the next free index
    let results = farms.update_farmer(FarmerId(2), hash(2), 100, Some(vec![details(20, 2)]));
    assert_eq!(results.len(), 1);
    assert_eq!(results[0].farm_index, 2);
    assert_eq!(farms.known_farmers().len(), 2);
}

#[test]
fn unknown_farmer_without_details_is_not_added() {
    let mut farms = KnownFarms::new();
    let results = farms.update_farmer(FarmerId(1), hash(1), 100, None);
    assert!(results.is_empty());
    assert!(farms.known_farmers().is_empty());
}

#[test]
fn same_fingerprint_only_refreshes_identification() {
    let mut farms = KnownFarms::new();
    farms.update_farmer(FarmerId(1), hash(1), 100, Some(vec![details(10, 1)]));
    assert!(!farms.needs_farm_details(FarmerId(1), &hash(1)));
    // the details are not looked at
    let results = farms.update_farmer(FarmerId(1), hash(1), 250, Some(vec![details(99, 9)]));
    assert!(results.is_empty());
    assert_eq!(farm_indices(&farms, FarmerId(1)), vec![(0, 10, 250)]);
}

#[test]
fn fingerprint_change_keeps_updates_and_adds_farms() {
    let mut farms = KnownFarms::new();
    let first = farms.update_farmer(FarmerId(1), hash(1), 100, Some(vec![details(10, 1)]));
    let kept_receiver = first.into_iter().next().unwrap().expired_receiver.into_receiver();
    // farm 11 joins under the same farmer after a fingerprint change
    let second = farms.update_farmer(FarmerId(1), hash(2), 200, Some(vec![details(10, 1), details(11, 1)]));
    let views: Vec<_> = second.iter().map(|r| (r.farm_index, r.farm_details.farm_id.0, r.add, r.remove)).collect();
    // farm 10 is unchanged: no result, same expiry channel; farm 11 is new
    assert_eq!(views, vec![(1, 11, true, false)]);
    let mut indices = farm_indices(&farms, FarmerId(1));
    indices.sort();
    assert_eq!(indices, vec![(0, 10, 200), (1, 11, 200)]);
    // farm 10 changes its fingerprint: re-initialized at the same index
    let third = farms.update_farmer(FarmerId(1), hash(3), 300, Some(vec![details(10, 7), details(11, 1)]));
    let views: Vec<_> = third.iter().map(|r| (r.farm_index, r.farm_details.farm_id.0, r.add, r.remove)).collect();
    assert_eq!(views, vec![(0, 10, true, true)]);
    // the re-initialized farm takes its new fingerprint
    let farmer = farms.get_known_farmer(FarmerId(1)).unwrap();
    let (index, farm) = farmer.known_farms.entry(0);
    assert_eq!((*index, farm.farm_id.0), (0, 10));
    assert!(farm.fingerprint.same_as(&hash(7)));
    // the old expiry sender of farm 10 was replaced, which cancels the receiver
    assert_eq!(block_on(kept_receiver), Err(Canceled));
}

#[test]
fn fingerprint_change_without_details_drops_farms() {
    let mut farms = KnownFarms::new();
    let first = farms.update_farmer(FarmerId(1), hash(1), 100, Some(vec![details(10, 1)]));
    let receiver = first.into_iter().next().unwrap().expired_receiver.into_receiver();
    assert!(farms.needs_farm_details(FarmerId(1), &hash(2)));
    let results = farms.update_farmer(FarmerId(1), hash(2), 200, None);
    assert!(results.is_empty());
    assert!(farm_indices(&farms, FarmerId(1)).is_empty());
    assert!(farms.get_known_farmer(FarmerId(1)).unwrap().fingerprint.same_as(&hash(2)));
    assert_eq!(block_on(receiver), Err(Canceled));
    assert_eq!(farms.pick_farmer_index(), Some(0));
}

#[test]
fn standalone_farms_start_empty() {
    let mut farms = KnownFarms::new();
    assert!(farms.remove_expired(1_000, 5_000).is_empty());
    farms.remove(3);
    assert_eq!(farms.known_farms().len(), 0);
}

#[test]
fn farms_of_different_farmers_never_share_an_index() {
    let mut farms = KnownFarms::new();
    farms.update_farmer(FarmerId(1), hash(1), 10, Some(vec![details(10, 1)]));
    farms.update_farmer(FarmerId(2), hash(2), 10, Some(vec![details(20, 2)]));
    // farmer 1 announces a new farm after a fingerprint change: index 1 is
    // farmer 2's, so the new farm gets index 2
    let results = farms.update_farmer(FarmerId(1), hash(3), 20, Some(vec![details(10, 1), details(11, 1)]));
    assert_eq!(results.len(), 1);
    assert_eq!((results[0].farm_index, results[0].remove), (2, false));
    let mut first: Vec<u16> = farm_indices(&farms, FarmerId(1)).into_iter().map(|f| f.0).collect();
    first.sort();
    let second: Vec<u16> = farm_indices(&farms, FarmerId(2)).into_iter().map(|f| f.0).collect();
    assert_eq!(first, vec![0, 2]);
    assert_eq!(second, vec![1]);
    assert_eq!(farms.pick_farmer_index(), Some(3));
}

#[test]
fn previous_farm_announced_later_takes_back_its_index() {
    let mut farms = KnownFarms::new();
    farms.update_farmer(FarmerId(1), hash(1), 10, Some(vec![details(10, 1)]));
    // farm 12 comes first and takes the free index 0; farm 10, announced
    // again later, goes back to index 0 and replaces it
    let results = farms.update_farmer(FarmerId(1), hash(2), 20, Some(vec![details(12, 1), details(10, 5)]));
    let views: Vec<_> = results.iter().map(|r| (r.farm_index, r.farm_details.farm_id.0, r.remove)).collect();
    assert_eq!(views, vec![(0, 12, false), (0, 10, true)]);
    assert_eq!(farm_indices(&farms, FarmerId(1)), vec![(0, 10, 20)]);
}

#[test]
fn dropped_farm_frees_its_index_for_new_farms() {
    let mut farms = KnownFarms::new();
    farms.update_farmer(FarmerId(1), hash(1), 10, Some(vec![details(10, 1)]));
    // farm 10 is no longer announced, farm 12 is new: it takes index 0
    let results = farms.update_farmer(FarmerId(1), hash(2), 20, Some(vec![details(12, 1)]));
    let views: Vec<_> = results.iter().map(|r| (r.farm_index, r.farm_details.farm_id.0, r.remove)).collect();
    assert_eq!(views, vec![(0, 12, false)]);
    assert_eq!(farm_indices(&farms, FarmerId(1)), vec![(0, 12, 20)]);
    assert_eq!(farms.pick_farmer_index(), Some(1));
}

#[test]
fn each_receiver_follows_the_sender_of_its_farm() {
    let mut farms = KnownFarms::new();
    let first = farms.update_farmer(FarmerId(1), hash(1), 100, Some(vec![details(10, 1), details(11, 1)]));
    let mut receivers: Vec<_> = first.into_iter().map(|r| (r.farm_details.farm_id.0, r.expired_receiver.into_receiver())).collect();
    assert_eq!(receivers.iter().map(|(id, _)| *id).collect::<Vec<_>>(), vec![10, 11]);
    // both farms are alive: nothing has resolved
    assert_eq!(receivers[0].1.try_recv(), Ok(None));
    assert_eq!(receivers[1].1.try_recv(), Ok(None));
    // farm 10 is no longer announced, farm 11 is announced unchanged
    let second = farms.update_farmer(FarmerId(1), hash(2), 200, Some(vec![details(11, 1)]));
    assert!(second.is_empty());
    assert_eq!(receivers[0].1.try_recv(), Err(Canceled));
    assert_eq!(receivers[1].1.try_recv(), Ok(None));
}
