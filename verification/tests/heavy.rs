use kon_rs::algorithm::{
    create_live_info, BandScheduleTraverseDecorator, IScheduleCallback,
    MemberConflictTraverseDecorator, RoomMatrix, SchedulerImpl, SchedulerInfo, TaskId, TaskInfo,
    TreeTraverser,
};
use kon_rs::{BandId, BlockId};

struct Counter {
    assigned: u64,
}

impl IScheduleCallback for Counter {
    fn on_started(&mut self, _scheduler_info: &SchedulerInfo) {}

    fn on_progress(&mut self, _task_id: TaskId, _task_info: &TaskInfo) {}

    fn on_assigned(
        &mut self,
        _table: &Vec<(BlockId, BandId)>,
        _room_matrix: &RoomMatrix,
        _live_info: &kon_rs::algorithm::LiveInfo,
    ) {
        self.assigned += 1;
    }

    fn on_completed(&mut self) {}
}

#[test]
fn full_stream_no_pruning() {
    // eight single-member bands with disjoint members over eight blocks:
    // nothing prunes, the full factorial stream arrives, and the
    // carved-up driver agrees with the single-tree one
    let names: Vec<String> = (0..8).map(|i| format!("band_{}", i)).collect();
    let band_table: Vec<(String, Vec<String>)> = names
        .iter()
        .enumerate()
        .map(|(i, name)| (name.clone(), vec![format!("m{}", i)]))
        .collect();
    let band_schedule: Vec<(String, Vec<bool>)> = names
        .iter()
        .map(|name| (name.clone(), vec![true; 2]))
        .collect();
    let room_matrix = RoomMatrix::builder()
        .push_room(2)
        .push_room(2)
        .push_room(2)
        .push_room(1)
        .push_room(1)
        .build();
    let live_info = create_live_info(&band_table, &band_schedule, &room_matrix).unwrap();

    let chain = MemberConflictTraverseDecorator::new(BandScheduleTraverseDecorator::new(
        TreeTraverser::default(),
    ));
    let mut sync_impl = SchedulerImpl::new(chain.clone(), Counter { assigned: 0 });
    sync_impl.assign(&room_matrix, &live_info).unwrap();
    assert_eq!(sync_impl.callback.assigned, 40320);

    let mut part_impl = SchedulerImpl::new(chain, Counter { assigned: 0 });
    part_impl
        .assign_partitioned(&room_matrix, &live_info, 5)
        .unwrap();
    assert_eq!(part_impl.callback.assigned, 40320);
}
