use kon_rs::algorithm::{create_live_info, LiveInfoError, RoomMatrix};

fn entry(name: &str, members: &[&str]) -> (String, Vec<String>) {
    (
        name.to_string(),
        members.iter().map(|m| m.to_string()).collect(),
    )
}

fn full_schedule(names: &[&str], spans: usize) -> Vec<(String, Vec<bool>)> {
    names
        .iter()
        .map(|name| (name.to_string(), vec![true; spans]))
        .collect()
}

#[test]
fn mod_simple() {
    let band_table = vec![
        entry("a_band", &["shikama_shuto", "zzz"]),
        entry("b_band", &["shikama_shuto"]),
    ];
    let band_schedule: Vec<(String, Vec<bool>)> =
        full_schedule(&["a_band", "b_band"], 16);
    let room_matrix = RoomMatrix::builder().push_room(1).build();
    let live_info = create_live_info(&band_table, &band_schedule, &room_matrix).unwrap();

    let band_id_a = live_info.band_ids()[0];
    let band_id_b = live_info.band_ids()[1];
    let members_a = live_info.band_member_ids(band_id_a).unwrap();
    let members_b = live_info.band_member_ids(band_id_b).unwrap();

    assert_eq!(members_a.len(), 2);
    assert_eq!(members_b.len(), 1);

    let members: Vec<&str> = members_a
        .iter()
        .map(|id| live_info.user_identifier(*id).unwrap())
        .collect();
    assert!(members.contains(&"shikama_shuto"));
    assert!(members.contains(&"zzz"));
}

#[test]
fn duplicate_band_name_rejected() {
    let band_table = vec![entry("band_a", &["a"]), entry("band_a", &["b"])];
    let band_schedule = full_schedule(&["band_a"], 1);
    let room_matrix = RoomMatrix::builder().push_room(1).build();
    let r = create_live_info(&band_table, &band_schedule, &room_matrix);
    match r {
        Err(e) => assert_eq!(e, LiveInfoError::InputInconsistency),
        Ok(_) => panic!(),
    }
}

#[test]
fn missing_schedule_rejected() {
    let band_table = vec![entry("band_a", &["a"]), entry("band_b", &["b"])];
    let band_schedule = full_schedule(&["band_a"], 1);
    let room_matrix = RoomMatrix::builder().push_room(1).build();
    let r = create_live_info(&band_table, &band_schedule, &room_matrix);
    match r {
        Err(e) => assert_eq!(e, LiveInfoError::InputInconsistency),
        Ok(_) => panic!(),
    }
}

#[test]
fn short_schedule_rejected() {
    let band_table = vec![entry("band_a", &["a"])];
    let band_schedule = vec![("band_a".to_string(), vec![true])];
    let room_matrix = RoomMatrix::builder().push_room(3).build();
    let r = create_live_info(&band_table, &band_schedule, &room_matrix);
    match r {
        Err(e) => assert_eq!(e, LiveInfoError::InputInconsistency),
        Ok(_) => panic!(),
    }
}

#[test]
fn capacity_overflow_rejected() {
    let members: Vec<String> = (0..65).map(|i| format!("m{}", i)).collect();
    let member_refs: Vec<&str> = members.iter().map(|s| s.as_str()).collect();
    let band_table = vec![entry("band_a", &member_refs)];
    let band_schedule = full_schedule(&["band_a"], 1);
    let room_matrix = RoomMatrix::builder().push_room(1).build();
    let r = create_live_info(&band_table, &band_schedule, &room_matrix);
    match r {
        Err(e) => assert_eq!(e, LiveInfoError::CapacityOverflow),
        Ok(_) => panic!(),
    }
}

#[test]
fn band_order_is_sorted() {
    let band_table = vec![entry("zz_band", &["a"]), entry("aa_band", &["b"])];
    let band_schedule = full_schedule(&["zz_band", "aa_band"], 2);
    let room_matrix = RoomMatrix::builder().push_room(2).build();
    let live_info = create_live_info(&band_table, &band_schedule, &room_matrix).unwrap();
    assert_eq!(live_info.band_name(live_info.band_ids()[0]), "aa_band");
    assert_eq!(live_info.band_name(live_info.band_ids()[1]), "zz_band");
}
