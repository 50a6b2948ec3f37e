use kon_rs::algorithm::{
    create_live_info, BandScheduleTraverseDecorator, IScheduleCallback,
    MemberConflictTraverseDecorator, RoomMatrix, ScheduleCallbackMock, Scheduler, SchedulerImpl,
    SchedulerInfo, TaskId, TaskInfo, TreeTraverser,
};
use kon_rs::{BandId, BlockId};

fn entry(name: &str, members: &[&str]) -> (String, Vec<String>) {
    (
        name.to_string(),
        members.iter().map(|m| m.to_string()).collect(),
    )
}

fn full_schedule(names: &[&str], spans: usize) -> Vec<(String, Vec<bool>)> {
    names
        .iter()
        .map(|name| (name.to_string(), vec![true; spans]))
        .collect()
}

#[test]
fn scheduler_simple() {
    let band_table = vec![entry("band_a", &["aaa_aaa"]), entry("band_b", &["aaa_aaa"])];
    let band_schedule = full_schedule(&["band_a", "band_b"], 16);
    let room_matrix = RoomMatrix::builder().push_room(2).build();
    let live_info = create_live_info(&band_table, &band_schedule, &room_matrix).unwrap();

    let scheduler = Scheduler::new();
    let result = scheduler.assign(&room_matrix, &live_info);
    assert_eq!(result.len(), 2);
}

#[test]
fn exhaustion() {
    let band_table = vec![entry("band_a", &["aaa_aaa"]), entry("band_b", &["aaa_aaa"])];
    let band_schedule = full_schedule(&["band_a", "band_b"], 16);
    let room_matrix = RoomMatrix::builder().push_room(1).build();
    let live_info = create_live_info(&band_table, &band_schedule, &room_matrix).unwrap();

    let scheduler = Scheduler::new();
    let result = scheduler.assign(&room_matrix, &live_info);
    assert_eq!(result.len(), 0);
}

#[test]
fn scheduler_simple_parallel() {
    let band_table = vec![
        entry("band_a", &["aaa_aaa", "ccc"]),
        entry("band_b", &["aaa_aaa", "ddd"]),
        entry("band_c", &["bbb_bbb", "ccc"]),
    ];
    let band_schedule = full_schedule(&["band_a", "band_b", "band_c"], 16);
    let room_matrix = RoomMatrix::builder().push_room(2).push_room(1).build();
    let live_info = create_live_info(&band_table, &band_schedule, &room_matrix).unwrap();

    let scheduler = Scheduler::new();
    let result = scheduler.assign(&room_matrix, &live_info);
    assert_eq!(result.len(), 2);
}

#[test]
fn simple_parallel_with_schedule() {
    let band_table = vec![
        entry("band_a", &["a"]),
        entry("band_b", &["b"]),
        entry("band_c", &["c"]),
    ];
    let band_schedule = vec![
        ("band_a".to_string(), vec![false, true]),
        ("band_b".to_string(), vec![true, true]),
        ("band_c".to_string(), vec![true, false]),
    ];
    let room_matrix = RoomMatrix::builder().push_room(2).push_room(1).build();
    let live_info = create_live_info(&band_table, &band_schedule, &room_matrix).unwrap();

    let scheduler = Scheduler::new();
    let result = scheduler.assign(&room_matrix, &live_info);
    assert_eq!(result.len(), 2);
}

#[derive(Debug, PartialEq, Eq, Clone, Copy)]
enum Tag {
    Started,
    Assigned,
    Completed,
}

struct TagRecorder {
    tags: Vec<Tag>,
}

impl IScheduleCallback for TagRecorder {
    fn on_started(&mut self, _scheduler_info: &SchedulerInfo) {
        self.tags.push(Tag::Started);
    }

    fn on_progress(&mut self, _task_id: TaskId, _task_info: &TaskInfo) {}

    fn on_assigned(
        &mut self,
        _table: &Vec<(BlockId, BandId)>,
        _room_matrix: &RoomMatrix,
        _live_info: &kon_rs::algorithm::LiveInfo,
    ) {
        self.tags.push(Tag::Assigned);
    }

    fn on_completed(&mut self) {
        self.tags.push(Tag::Completed);
    }
}

fn chain() -> kon_rs::algorithm::StandardDecoratorChain {
    MemberConflictTraverseDecorator::new(BandScheduleTraverseDecorator::new(
        TreeTraverser::default(),
    ))
}

#[test]
fn run_event_order() {
    // one run: a single start, the assignments in between, one final
    // completion
    let band_table = vec![entry("band_a", &["a"]), entry("band_b", &["b"])];
    let band_schedule = full_schedule(&["band_a", "band_b"], 2);
    let room_matrix = RoomMatrix::builder().push_room(2).build();
    let live_info = create_live_info(&band_table, &band_schedule, &room_matrix).unwrap();

    let mut imp = SchedulerImpl::new(chain(), TagRecorder { tags: Vec::new() });
    imp.assign(&room_matrix, &live_info).unwrap();
    let tags = imp.callback.tags;
    assert_eq!(tags.first(), Some(&Tag::Started));
    assert_eq!(tags.last(), Some(&Tag::Completed));
    assert_eq!(tags.iter().filter(|t| **t == Tag::Started).count(), 1);
    assert_eq!(tags.iter().filter(|t| **t == Tag::Completed).count(), 1);
    assert_eq!(tags.len(), 4); // two assignments in between
}

fn sorted_tables(tables: Vec<Vec<(BlockId, BandId)>>) -> Vec<Vec<(usize, usize)>> {
    let mut out: Vec<Vec<(usize, usize)>> = tables
        .into_iter()
        .map(|t| t.into_iter().map(|(b, band)| (b.0, band.0)).collect())
        .collect();
    out.sort();
    out
}

#[test]
fn partitioned_matches_sync() {
    // the carved-up driver delivers the same assignments as the single
    // sub-tree one
    let band_table = vec![
        entry("band_a", &["aaa_aaa", "ccc"]),
        entry("band_b", &["aaa_aaa", "ddd"]),
        entry("band_c", &["bbb_bbb", "ccc"]),
        entry("band_d", &["eee"]),
    ];
    let band_schedule = full_schedule(&["band_a", "band_b", "band_c", "band_d"], 16);
    let room_matrix = RoomMatrix::builder().push_room(3).push_room(1).build();
    let live_info = create_live_info(&band_table, &band_schedule, &room_matrix).unwrap();

    let mut sync_impl = SchedulerImpl::new(chain(), ScheduleCallbackMock::new());
    sync_impl.assign(&room_matrix, &live_info).unwrap();
    let sync_tables = sorted_tables(sync_impl.callback.into_assigned());

    for depth in [1usize, 2, 3, 4] {
        let mut part_impl = SchedulerImpl::new(chain(), ScheduleCallbackMock::new());
        part_impl
            .assign_partitioned(&room_matrix, &live_info, depth)
            .unwrap();
        let part_tables = sorted_tables(part_impl.callback.into_assigned());
        assert_eq!(sync_tables, part_tables);
    }
}

#[test]
fn brute_force_count_matches() {
    // rooms [2, 1]: blocks 0 and 1 share span 0, block 2 sits in span 1
    let band_table = vec![
        entry("band_x", &["a"]),
        entry("band_y", &["a"]),
        entry("band_z", &["b"]),
    ];
    let band_schedule = full_schedule(&["band_x", "band_y", "band_z"], 3);
    let room_matrix = RoomMatrix::builder().push_room(2).push_room(1).build();
    let live_info = create_live_info(&band_table, &band_schedule, &room_matrix).unwrap();

    let scheduler = Scheduler::new();
    let result = scheduler.assign(&room_matrix, &live_info);

    // naive enumeration with the same predicates: bands 0 and 1 share a
    // musician and must not both sit in span 0
    let mut expected = 0;
    let perms = [
        [0, 1, 2],
        [0, 2, 1],
        [1, 0, 2],
        [1, 2, 0],
        [2, 0, 1],
        [2, 1, 0],
    ];
    for p in perms {
        let span0 = [p[0], p[1]];
        let conflict = span0.contains(&0) && span0.contains(&1);
        if !conflict {
            expected += 1;
        }
    }
    assert_eq!(result.len(), expected);
    assert_eq!(result.len(), 4);
}

#[test]
fn insufficient_capacity_reports() {
    // fewer blocks than bands: the error comes back and only a single
    // completion reaches the callback
    let band_table = vec![entry("band_a", &["a"]), entry("band_b", &["b"])];
    let band_schedule = full_schedule(&["band_a", "band_b"], 1);
    let room_matrix = RoomMatrix::builder().push_room(1).build();
    let live_info = create_live_info(&band_table, &band_schedule, &room_matrix).unwrap();

    let mut imp = SchedulerImpl::new(chain(), TagRecorder { tags: Vec::new() });
    let r = imp.assign(&room_matrix, &live_info);
    assert_eq!(r, Err(kon_rs::algorithm::SchedulerError::InsufficientCapacity));
    assert_eq!(imp.callback.tags, vec![Tag::Completed]);
}

#[test]
fn simple_() {
    // five independent bands over one five-block room: the full stream,
    // from the single-tree driver and from the carved-up one alike
    let room_matrix = RoomMatrix::builder().push_room(5).build();
    let band_table = vec![
        entry("band_x", &["a"]),
        entry("band_y", &["b"]),
        entry("band_z", &["c"]),
        entry("band_u", &["d"]),
        entry("band_v", &["e"]),
    ];
    let band_schedule = full_schedule(&["band_x", "band_y", "band_z", "band_u", "band_v"], 5);
    let live_info = create_live_info(&band_table, &band_schedule, &room_matrix).unwrap();

    let scheduler = Scheduler::new();
    let result = scheduler.assign(&room_matrix, &live_info);
    assert_eq!(result.len(), 120);

    let mut part_impl = SchedulerImpl::new(chain(), ScheduleCallbackMock::new());
    part_impl
        .assign_partitioned(&room_matrix, &live_info, 3)
        .unwrap();
    assert_eq!(part_impl.callback.into_assigned().len(), 120);
}
