use kon_rs::algorithm::RoomMatrix;

#[test]
fn room_matrix_simple() {
    let room_matrix = RoomMatrix::builder().push_room(1).build();
    assert_eq!(room_matrix.blocks().len(), 1);
    assert_eq!(room_matrix.spans().len(), 1);
}

#[test]
fn room_matrix_span() {
    let room_matrix = RoomMatrix::builder().push_room(2).build();
    let span_id = room_matrix.spans()[1];
    assert_eq!(room_matrix.iter_span_blocks(span_id).len(), 1);
}

#[test]
fn room_matrix_multi_room() {
    let room_matrix = RoomMatrix::builder()
        .push_room(1)
        .push_room(2)
        .push_room(3)
        .build();

    let span_id_0 = room_matrix.spans()[0];
    let span_id_1 = room_matrix.spans()[1];
    let span_id_2 = room_matrix.spans()[2];
    assert_eq!(room_matrix.iter_span_blocks(span_id_0).len(), 3);
    assert_eq!(room_matrix.iter_span_blocks(span_id_1).len(), 2);
    assert_eq!(room_matrix.iter_span_blocks(span_id_2).len(), 1);
}

#[test]
fn room_matrix_block_total_and_partition() {
    let room_matrix = RoomMatrix::builder()
        .push_room(2)
        .push_room(4)
        .push_room(1)
        .build();

    // every pushed slot becomes exactly one block
    assert_eq!(room_matrix.blocks().len(), 7);

    // the per-room lists partition the blocks: each block appears once
    let mut seen = vec![false; room_matrix.blocks().len()];
    for room_id in room_matrix.rooms().iter().copied().collect::<Vec<_>>() {
        for block in room_matrix.iter_room_blocks(room_id) {
            assert!(!seen[block.0]);
            seen[block.0] = true;
        }
    }
    assert!(seen.iter().all(|v| *v));

    // and so do the per-span lists
    let mut seen = vec![false; room_matrix.blocks().len()];
    for span_id in room_matrix.spans().iter().copied().collect::<Vec<_>>() {
        for block in room_matrix.iter_span_blocks(span_id) {
            assert!(!seen[block.0]);
            seen[block.0] = true;
        }
    }
    assert!(seen.iter().all(|v| *v));
}
