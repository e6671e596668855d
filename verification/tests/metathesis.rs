use pg_rules::metathesis::{move_nodes_after, reorder_window, seg_range_to_nodes};

#[test]
fn switching_two_single_segments_across_a_middle_one() {
    let (lo, order) = reorder_window(&[true, true, true, true], &[1], &[3]);
    assert_eq!(lo, 1);
    assert_eq!(order, vec![2, 1, 0]);
}

#[test]
fn switching_adjacent_segments_swaps_them() {
    let (lo, order) = reorder_window(&[true, true], &[0], &[1]);
    assert_eq!(lo, 0);
    assert_eq!(order, vec![1, 0]);
}

#[test]
fn a_non_segment_in_a_range_stays_but_still_advances_the_cursor() {
    let (lo, order) = reorder_window(&[true, false, true], &[0, 1], &[2]);
    assert_eq!(lo, 0);
    assert_eq!(order, vec![1, 0, 2]);
}

#[test]
fn move_nodes_after_to_the_front_and_after_a_node() {
    let mut order = vec![0, 1, 2, 3];
    move_nodes_after(&mut order, &[true, true, true, true], None, &[2]);
    assert_eq!(order, vec![2, 0, 1, 3]);
    move_nodes_after(&mut order, &[true, true, true, true], Some(3), &[0]);
    assert_eq!(order, vec![2, 1, 3, 0]);
    move_nodes_after(&mut order, &[true, false, true, true], Some(2), &[1]);
    assert_eq!(order, vec![2, 1, 3, 0]);
}

#[test]
fn seg_range_to_nodes_reads_a_slice() {
    assert_eq!(seg_range_to_nodes(&[4, 5, 6], (0, 3)), vec![4, 5, 6]);
}
