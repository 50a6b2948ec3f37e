use kon_rs::algorithm::{create_live_info, Evaluator, RoomMatrix};
use kon_rs::{BandId, RoomId};

#[test]
fn empty() {
    let room_assign: Vec<(RoomId, Vec<BandId>)> = Vec::new();
    let band_table: Vec<u64> = Vec::new();
    let score = Evaluator::evaluate_user_coherency(&room_assign, &band_table);
    assert_eq!(score, 0);
}

#[test]
fn one_band_coherency() {
    let band_id = BandId::new(0);
    let room_assign = vec![(RoomId::new(0), vec![band_id, band_id])];
    let band_table = vec![0x00FFu64];
    let score = Evaluator::evaluate_user_coherency(&room_assign, &band_table);
    assert_eq!(score, 0x00FFu64.count_ones());
}

#[test]
fn simple_coherency() {
    let band_id = BandId::new(0);
    let room_assign = vec![(RoomId::new(0), vec![band_id, band_id])];
    let band_table = vec![0x0004u64];
    let score = Evaluator::evaluate_user_coherency(&room_assign, &band_table);
    assert!(0 < score);
}

#[test]
fn evaluator_simple() {
    let band_id0 = BandId::new(0);
    let band_id1 = BandId::new(1);
    let band_id2 = BandId::new(2);

    let good_room_assign = vec![(RoomId::new(0), vec![BandId::invalid(), band_id2, band_id1])];
    let bad_room_assign = vec![(RoomId::new(0), vec![band_id0, BandId::invalid(), band_id1])];

    let _good_room_assign_score = Evaluator::evaluate_room_density(&good_room_assign);
    let _bad_room_assign_score = Evaluator::evaluate_room_density(&bad_room_assign);
}

#[test]
fn evaluate_cross_slice_overlap() {
    // three one-block slices; the bands at the compared positions share
    // one musician
    let band_table = vec![
        ("band_a".to_string(), vec!["m1".to_string()]),
        ("band_b".to_string(), vec!["m1".to_string()]),
        ("band_c".to_string(), vec!["m2".to_string()]),
    ];
    let band_schedule: Vec<(String, Vec<bool>)> = band_table
        .iter()
        .map(|(name, _)| (name.clone(), vec![true]))
        .collect();
    let room_matrix = RoomMatrix::builder().push_room(1).build();
    let live_info = create_live_info(&band_table, &band_schedule, &room_matrix).unwrap();

    let score = Evaluator::evaluate(&[1, 1, 1], &[2, 0, 1], &live_info);
    assert_eq!(score, 1);
}
