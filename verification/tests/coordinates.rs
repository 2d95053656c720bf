use game_of_life::utils::{from_chunk_pos, local_index, to_chunk_pos, to_local_pos};

#[test]
fn negative_cell_lies_in_negative_chunk() {
    assert_eq!(to_chunk_pos((-1, -1)), (-1, -1));
    assert_eq!(to_local_pos((-1, -1)), (49, 49));
}

#[test]
fn chunk_of_a_cell_is_the_floor_of_the_division() {
    assert_eq!(to_chunk_pos((0, 0)), (0, 0));
    assert_eq!(to_chunk_pos((49, 50)), (0, 1));
    assert_eq!(to_chunk_pos((99, 100)), (1, 2));
    assert_eq!(to_chunk_pos((-50, -51)), (-1, -2));
    assert_eq!(to_chunk_pos((-100, -101)), (-2, -3));
    assert_eq!(to_chunk_pos((123, -77)), (2, -2));
}

#[test]
fn chunk_of_the_extreme_cells() {
    assert_eq!(to_chunk_pos((i32::MAX, i32::MIN)), (42949672, -42949673));
    assert_eq!(to_local_pos((i32::MAX, i32::MIN)), (47, 2));
}

#[test]
fn origin_of_a_chunk_is_fifty_times_its_position() {
    assert_eq!(from_chunk_pos((0, 0)), (0, 0));
    assert_eq!(from_chunk_pos((2, -3)), (100, -150));
    assert_eq!(from_chunk_pos((-1, 1)), (-50, 50));
    assert_eq!(from_chunk_pos((42949672, -42949672)), (2147483600, -2147483600));
}

#[test]
fn origin_out_of_range_stops_at_the_bound() {
    assert_eq!(from_chunk_pos((42949673, -42949673)), (i32::MAX, i32::MIN));
    assert_eq!(from_chunk_pos((i32::MAX, i32::MIN)), (i32::MAX, i32::MIN));
}

#[test]
fn chunk_round_trip() {
    let mut c: i32 = -300;
    while c <= 300 {
        assert_eq!(to_chunk_pos(from_chunk_pos((c, -c))), (c, -c));
        c += 1;
    }
    assert_eq!(to_chunk_pos(from_chunk_pos((42949672, -42949672))), (42949672, -42949672));
}

#[test]
fn round_trip_fails_where_the_origin_is_out_of_range() {
    assert_eq!(to_chunk_pos(from_chunk_pos((42949673, 0))), (42949672, 0));
}

#[test]
fn local_index_is_never_negative() {
    assert_eq!(local_index(0), 0);
    assert_eq!(local_index(49), 49);
    assert_eq!(local_index(50), 0);
    assert_eq!(local_index(-1), 49);
    assert_eq!(local_index(-50), 0);
    assert_eq!(local_index(-51), 49);
    assert_eq!(local_index(137), 37);
}

#[test]
fn cell_is_chunk_origin_plus_local_position() {
    let mut w: i32 = -260;
    while w <= 260 {
        let chunk = to_chunk_pos((w, w + 7));
        let local = to_local_pos((w, w + 7));
        let origin = from_chunk_pos(chunk);
        assert_eq!(origin.0 + local.0 as i32, w);
        assert_eq!(origin.1 + local.1 as i32, w + 7);
        assert!(local.0 < 50 && local.1 < 50);
        w += 1;
    }
}
