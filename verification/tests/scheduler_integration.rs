use kon_rs::algorithm::{create_live_info, RoomMatrix, Scheduler};

fn entry(name: &str, members: &[&str]) -> (String, Vec<String>) {
    (
        name.to_string(),
        members.iter().map(|m| m.to_string()).collect(),
    )
}

fn full_schedule(names: &[&str], spans: usize) -> Vec<(String, Vec<bool>)> {
    names
        .iter()
        .map(|name| (name.to_string(), vec![true; spans]))
        .collect()
}

#[test]
fn simple() {
    // one room with three blocks: every ordering of the three bands
    let room_matrix = RoomMatrix::builder().push_room(3).build();
    let band_table = vec![
        entry("band_x", &["a"]),
        entry("band_y", &["a"]),
        entry("band_z", &["b"]),
    ];
    let band_schedule = full_schedule(&["band_x", "band_y", "band_z"], 3);
    let live_info = create_live_info(&band_table, &band_schedule, &room_matrix).unwrap();

    let scheduler = Scheduler::new();
    let result = scheduler.assign(&room_matrix, &live_info);
    assert_eq!(result.len(), 6);
}

#[test]
fn simple_parallel() {
    // two rooms: the shared musician keeps band_x and band_y apart in
    // span 0
    let room_matrix = RoomMatrix::builder().push_room(2).push_room(1).build();
    let band_table = vec![
        entry("band_x", &["a"]),
        entry("band_y", &["a"]),
        entry("band_z", &["b"]),
    ];
    let band_schedule = full_schedule(&["band_x", "band_y", "band_z"], 3);
    let live_info = create_live_info(&band_table, &band_schedule, &room_matrix).unwrap();

    let scheduler = Scheduler::new();
    let result = scheduler.assign(&room_matrix, &live_info);
    assert_eq!(result.len(), 4);
}

#[test]
fn simple_none() {
    // three one-block rooms: all three blocks share span 0, so the two
    // bands with a common musician can never both be placed
    let room_matrix = RoomMatrix::builder()
        .push_room(1)
        .push_room(1)
        .push_room(1)
        .build();
    let band_table = vec![
        entry("band_x", &["a"]),
        entry("band_y", &["a"]),
        entry("band_z", &["b"]),
    ];
    let band_schedule = full_schedule(&["band_x", "band_y", "band_z"], 3);
    let live_info = create_live_info(&band_table, &band_schedule, &room_matrix).unwrap();

    let scheduler = Scheduler::new();
    let result = scheduler.assign(&room_matrix, &live_info);
    assert_eq!(result.len(), 0);
}
