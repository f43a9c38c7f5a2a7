use pixel_sort::{isqrt_ceil, linear_sequences, sheared_row, spiral_ring};

#[test]
fn linear_sequences_are_rows_left_to_right() {
    let seqs = linear_sequences(3, 2);
    assert_eq!(seqs.len(), 2);
    assert_eq!(seqs[0], vec![(0, 0), (1, 0), (2, 0)]);
    assert_eq!(seqs[1], vec![(0, 1), (1, 1), (2, 1)]);
}

#[test]
fn spiral_outer_ring_walks_the_border_clockwise() {
    let ring = spiral_ring(4, 4, 0);
    assert_eq!(
        ring,
        vec![
            (1, 0),
            (2, 0),
            (3, 0),
            (3, 1),
            (3, 2),
            (3, 3),
            (2, 3),
            (1, 3),
            (0, 3),
            (0, 2),
            (0, 1),
            (0, 0),
        ]
    );
}

#[test]
fn spiral_inner_ring_is_inset_by_one() {
    let ring = spiral_ring(4, 4, 1);
    assert_eq!(ring, vec![(2, 1), (2, 2), (1, 2), (1, 1)]);
}

#[test]
fn sheared_row_offsets_each_column_and_drops_invalid_rows() {
    let shear = vec![0i64, 1, 2];
    // row 0 is a valid target row like any other
    assert_eq!(sheared_row(&shear, 4, 0), vec![(0, 0), (1, 1), (2, 2)]);
    assert_eq!(sheared_row(&shear, 4, 1), vec![(0, 1), (1, 2), (2, 3)]);
    // offsets past the bottom edge are dropped
    assert_eq!(sheared_row(&shear, 4, 3), vec![(0, 3)]);
    // negative target rows are dropped
    assert_eq!(sheared_row(&shear, 4, -2), vec![(2, 0)]);
}

#[test]
fn ceil_square_root_is_exact() {
    assert_eq!(isqrt_ceil(0), 0);
    assert_eq!(isqrt_ceil(1), 1);
    assert_eq!(isqrt_ceil(2), 2);
    assert_eq!(isqrt_ceil(4), 2);
    assert_eq!(isqrt_ceil(5), 3);
    assert_eq!(isqrt_ceil(9), 3);
    assert_eq!(isqrt_ceil(10), 4);
    assert_eq!(isqrt_ceil(1 << 32), 1 << 16);
    assert_eq!(isqrt_ceil((1u128 << 32) + 1), (1 << 16) + 1);
}
