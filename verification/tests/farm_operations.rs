use cluster_controller::farm_operations::{
    add_farm, buffered_sector_changes, remove_farm, FarmOperation, FarmsMaintenance, SectorChange,
};
use cluster_controller::ids::FarmId;
use std::collections::VecDeque;

fn delete_index(op: &FarmOperation) -> Option<(u16, Option<u128>)> {
    match op {
        FarmOperation::Delete { farm_index, known_farm_id } => Some((*farm_index, known_farm_id.map(|id| id.0))),
        FarmOperation::Add { .. } => None,
    }
}

#[test]
fn operations_are_queued_in_order() {
    let mut queue = VecDeque::new();
    remove_farm(FarmId(5), 2, &mut queue);
    let (_sender, receiver) = futures::channel::oneshot::channel();
    add_farm(FarmId(6), 3, 100, true, receiver, &mut queue);
    assert_eq!(delete_index(&queue[0]), Some((2, Some(5))));
    match &queue[1] {
        FarmOperation::Add { farm_index, farm_id, total_sectors_count, remove, .. } => {
            assert_eq!((*farm_index, farm_id.0, *total_sectors_count, *remove), (3, 6, 100, true));
        }
        _ => panic!("expected an addition"),
    }
}

#[test]
fn one_operation_runs_at_a_time() {
    let mut m = FarmsMaintenance::new();
    // the initial operation is still running
    m.farm_exited(4);
    m.farm_exited(7);
    assert!(m.next_operation().is_none());
    m.operation_finished();
    let first = m.next_operation().expect("queued");
    assert_eq!(delete_index(&first), Some((4, None)));
    assert!(m.operation_in_progress());
    assert!(m.next_operation().is_none());
    m.operation_finished();
    assert_eq!(delete_index(&m.next_operation().unwrap()), Some((7, None)));
    m.operation_finished();
    assert!(m.next_operation().is_none());
    assert!(!m.operation_in_progress());
    assert_eq!(m.pending_len(), 0);
}

#[test]
fn pruning_without_farms_queues_nothing() {
    let mut m = FarmsMaintenance::new();
    assert!(m.prune(100_000, 5_000).is_empty());
    assert_eq!(m.pending_len(), 0);
}

#[test]
fn buffered_sectors_are_deleted_before_being_added() {
    let buffer: Vec<(u32, Option<u32>)> = vec![(1, None), (2, Some(9))];
    let changes = buffered_sector_changes(&buffer);
    let shown: Vec<(bool, u32)> = changes
        .iter()
        .map(|c| match c {
            SectorChange::Delete(s) => (false, *s),
            SectorChange::Add(s) => (true, *s),
        })
        .collect();
    assert_eq!(shown, vec![(false, 1), (true, 1), (false, 9), (false, 2), (true, 2)]);
    assert!(buffered_sector_changes::<u32>(&Vec::new()).is_empty());
}
