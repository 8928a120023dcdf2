use plumb_workspace::moves::{insertion_after_removal, move_placement_refused, removes_from_parent, top_level_anchor};

#[test]
fn a_task_cannot_move_into_itself_or_after_itself() {
    assert!(move_placement_refused((10, 50), Some((20, 30)), None));
    assert!(move_placement_refused((10, 50), None, Some((10, 50))));
    assert!(!move_placement_refused((10, 50), Some((60, 90)), Some((70, 80))));
    assert!(!move_placement_refused((10, 50), None, None));
}

#[test]
fn removal_before_the_insertion_point_moves_it_back() {
    assert_eq!(insertion_after_removal(&vec![0, 1], &vec![0], 3), 2);
    assert_eq!(insertion_after_removal(&vec![0, 3], &vec![0], 3), 3);
    assert_eq!(insertion_after_removal(&vec![1, 1], &vec![0], 3), 3);
    assert_eq!(insertion_after_removal(&vec![0, 1, 2], &vec![0], 3), 3);
}

#[test]
fn a_top_level_move_follows_the_last_other_block() {
    let blocks = vec![(0, 10), (10, 20), (20, 30)];
    assert_eq!(top_level_anchor(None, None, &blocks, (20, 30)), Some((10, 20)));
    assert_eq!(top_level_anchor(None, None, &blocks, (0, 10)), Some((20, 30)));
    assert_eq!(top_level_anchor(None, Some((0, 10)), &blocks, (20, 30)), Some((0, 10)));
    assert_eq!(top_level_anchor(Some((0, 10)), Some((0, 10)), &blocks, (20, 30)), None);
    assert_eq!(top_level_anchor(None, None, &vec![(5, 9)], (5, 9)), None);
}

#[test]
fn a_task_leaves_a_parent_that_does_not_overlap_the_new_one() {
    assert!(removes_from_parent(Some((0, 40)), None));
    assert!(removes_from_parent(Some((0, 40)), Some((40, 60))));
    assert!(!removes_from_parent(Some((0, 40)), Some((10, 20))));
    assert!(!removes_from_parent(None, Some((10, 20))));
}
