use yuno_tasks::model::{StoreError, TaskItem, TaskItemStatus};
use yuno_tasks::sequence::{
    copy_order, move_entry, move_member, next_sequence, position_of, relink_member, remove_member,
    two_phase_writes, without_member,
};

#[test]
fn status_codes_round_trip() {
    assert_eq!(TaskItemStatus::from_code(0), Ok(TaskItemStatus::Pending));
    assert_eq!(TaskItemStatus::from_code(1), Ok(TaskItemStatus::Completed));
    assert_eq!(TaskItemStatus::from_code(2), Ok(TaskItemStatus::Canceled));
    assert_eq!(TaskItemStatus::Canceled.code(), 2);
    assert_eq!(i64::from(TaskItemStatus::Completed), 1);
    assert!(TaskItemStatus::Pending.is_pending());
    assert!(!TaskItemStatus::Canceled.is_pending());
}

#[test]
fn unknown_status_code_is_an_error() {
    assert_eq!(TaskItemStatus::from_code(3), Err(StoreError::UnknownStatus(3)));
    assert_eq!(TaskItemStatus::from_code(-1), Err(StoreError::UnknownStatus(-1)));
}

#[test]
fn item_from_parts_decodes_status() {
    let it = TaskItem::from_parts(4, "milk".to_string(), 1).unwrap();
    assert_eq!(it.id, 4);
    assert_eq!(it.content, "milk");
    assert_eq!(it.status, TaskItemStatus::Completed);
    assert_eq!(
        TaskItem::from_parts(4, "milk".to_string(), 9).unwrap_err(),
        StoreError::UnknownStatus(9)
    );
}

#[test]
fn move_to_earlier_position_shifts_later() {
    let order = vec![10, 20, 30, 40];
    assert_eq!(move_member(&order, 40, 2), Ok(vec![10, 40, 20, 30]));
    assert_eq!(move_member(&order, 30, 1), Ok(vec![30, 10, 20, 40]));
}

#[test]
fn move_to_later_position_shifts_earlier() {
    let order = vec![10, 20, 30, 40];
    assert_eq!(move_member(&order, 10, 3), Ok(vec![20, 30, 10, 40]));
    assert_eq!(move_member(&order, 20, 4), Ok(vec![10, 30, 40, 20]));
}

#[test]
fn move_to_own_position_changes_nothing() {
    let order = vec![5, 6, 7];
    for (i, m) in order.iter().enumerate() {
        assert_eq!(move_member(&order, *m, i as i64 + 1), Ok(order.clone()));
    }
}

#[test]
fn move_out_of_bounds_is_rejected() {
    let order = vec![5, 6, 7];
    assert_eq!(move_member(&order, 6, 0), Err(StoreError::InvalidPosition));
    assert_eq!(move_member(&order, 6, 4), Err(StoreError::InvalidPosition));
    assert_eq!(move_member(&order, 6, -3), Err(StoreError::InvalidPosition));
}

#[test]
fn move_of_absent_member_is_not_found() {
    assert_eq!(move_member(&vec![5, 6, 7], 8, 1), Err(StoreError::NotFound));
    assert_eq!(move_member(&vec![], 8, 1), Err(StoreError::NotFound));
}

#[test]
fn remove_closes_the_gap() {
    assert_eq!(remove_member(&vec![1, 2, 3], 2), Ok(vec![1, 3]));
    assert_eq!(remove_member(&vec![1, 2, 3], 9), Err(StoreError::NotFound));
    assert_eq!(without_member(&vec![1, 2, 3], 1), vec![2, 3]);
    assert_eq!(without_member(&vec![1, 2, 3], 9), vec![1, 2, 3]);
}

#[test]
fn next_sequence_is_max_plus_one() {
    assert_eq!(next_sequence(&vec![]), Some(1));
    assert_eq!(next_sequence(&vec![3, 1, 2]), Some(4));
    assert_eq!(next_sequence(&vec![-4, -2]), Some(-1));
    assert_eq!(next_sequence(&vec![1, i64::MAX]), None);
}

#[test]
fn two_phase_writes_negate_then_number() {
    assert_eq!(
        two_phase_writes(&vec![7, 9, 4]),
        vec![(7, -1), (9, -2), (4, -3), (7, 1), (9, 2), (4, 3)]
    );
    assert_eq!(two_phase_writes(&vec![]), vec![]);
}

#[test]
fn position_and_copy_helpers() {
    let order = vec![3, 8, 3];
    assert_eq!(position_of(&order, 3), Some(0));
    assert_eq!(position_of(&order, 8), Some(1));
    assert_eq!(position_of(&order, 5), None);
    assert_eq!(copy_order(&order), order);
    let mut v = vec!['a', 'b', 'c', 'd'];
    move_entry(&mut v, 0, 2);
    assert_eq!(v, vec!['b', 'c', 'a', 'd']);
}

#[test]
fn relink_takes_the_last_rank() {
    assert_eq!(relink_member(&vec![4, 5, 6], 4), (vec![5, 6, 4], 3));
    assert_eq!(relink_member(&vec![4, 5, 6], 6), (vec![4, 5, 6], 3));
    assert_eq!(relink_member(&vec![4, 5], 9), (vec![4, 5, 9], 3));
    assert_eq!(relink_member(&vec![], 9), (vec![9], 1));
}
