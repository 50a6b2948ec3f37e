use kon_rs::algorithm::{
    create_live_info, BandScheduleTraverseDecorator, ITraverseDecorator,
    MemberConflictTraverseDecorator, RoomMatrix, TraverseOperation, TreeTraverser,
};

fn bands(entries: &[(&str, &[&str])]) -> Vec<(String, Vec<String>)> {
    entries
        .iter()
        .map(|(name, members)| {
            (
                name.to_string(),
                members.iter().map(|m| m.to_string()).collect(),
            )
        })
        .collect()
}

fn schedules(entries: &[(&str, &[bool])]) -> Vec<(String, Vec<bool>)> {
    entries
        .iter()
        .map(|(name, flags)| (name.to_string(), flags.to_vec()))
        .collect()
}

#[test]
fn schedule_simple() {
    let decorator = BandScheduleTraverseDecorator::new(TreeTraverser::default());

    let room_matrix = RoomMatrix::builder().push_room(1).build();
    let live_info = create_live_info(
        &bands(&[("band_a", &["a"])]),
        &schedules(&[("band_a", &[true])]),
        &room_matrix,
    )
    .unwrap();

    let TraverseOperation::Next =
        decorator.invoke_with_room_matrix(&[0], &room_matrix, &live_info)
    else {
        panic!();
    };
}

#[test]
fn schedule_multi_simple() {
    let decorator = BandScheduleTraverseDecorator::new(TreeTraverser::default());

    let room_matrix = RoomMatrix::builder().push_room(2).build();
    let live_info = create_live_info(
        &bands(&[("band_a", &["a"]), ("band_b", &["a"])]),
        &schedules(&[("band_a", &[true, true]), ("band_b", &[true, true])]),
        &room_matrix,
    )
    .unwrap();

    let TraverseOperation::Next =
        decorator.invoke_with_room_matrix(&[0, 1], &room_matrix, &live_info)
    else {
        panic!();
    };

    let TraverseOperation::Next =
        decorator.invoke_with_room_matrix(&[1, 0], &room_matrix, &live_info)
    else {
        panic!();
    };
}

#[test]
fn schedule_conflict() {
    let decorator = BandScheduleTraverseDecorator::new(TreeTraverser::default());

    let room_matrix = RoomMatrix::builder().push_room(1).build();
    let live_info = create_live_info(
        &bands(&[("band_a", &["a"])]),
        &schedules(&[("band_a", &[false])]),
        &room_matrix,
    )
    .unwrap();

    let TraverseOperation::Pruning =
        decorator.invoke_with_room_matrix(&[0], &room_matrix, &live_info)
    else {
        panic!();
    };
}

#[test]
fn member_conflict_pass() {
    let decorator = MemberConflictTraverseDecorator::new(TreeTraverser::default());

    let room_matrix = RoomMatrix::builder().push_room(1).build();
    let live_info = create_live_info(
        &bands(&[("band_a", &["a"])]),
        &schedules(&[("band_a", &[false])]),
        &room_matrix,
    )
    .unwrap();

    let TraverseOperation::Next =
        decorator.invoke_with_room_matrix(&[0], &room_matrix, &live_info)
    else {
        panic!();
    };
}

#[test]
fn member_conflict() {
    let decorator = MemberConflictTraverseDecorator::new(TreeTraverser::default());

    let room_matrix = RoomMatrix::builder().push_room(1).push_room(1).build();
    let live_info = create_live_info(
        &bands(&[("band_a", &["a"]), ("band_b", &["a"])]),
        &schedules(&[("band_a", &[true]), ("band_b", &[true])]),
        &room_matrix,
    )
    .unwrap();

    let TraverseOperation::Pruning =
        decorator.invoke_with_room_matrix(&[0, 1], &room_matrix, &live_info)
    else {
        panic!();
    };

    let TraverseOperation::Pruning =
        decorator.invoke_with_room_matrix(&[1, 0], &room_matrix, &live_info)
    else {
        panic!();
    };
}
