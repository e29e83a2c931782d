use yuno_tasks::model::{StoreError, TaskItemStatus};
use yuno_tasks::store::Store;

fn project_order(s: &Store) -> Vec<(i64, i64)> {
    s.get_all_projects().iter().map(|p| (p.id, p.sequence)).collect()
}

fn task_order(s: &Store, project: i64) -> Vec<(i64, i64)> {
    s.get_tasks(project).iter().map(|t| (t.id, t.sequence)).collect()
}

fn item_order(s: &Store, task: i64) -> Vec<(i64, Option<i64>)> {
    s.get_task_items(task).unwrap().iter().map(|i| (i.id, i.sequence)).collect()
}

#[test]
fn projects_move_then_delete_renumbers() {
    let mut s = Store::new();
    let p1 = s.create_project("P1".to_string(), None).unwrap();
    let p2 = s.create_project("P2".to_string(), Some("second".to_string())).unwrap();
    let p3 = s.create_project("P3".to_string(), None).unwrap();
    assert_eq!(project_order(&s), vec![(p1, 1), (p2, 2), (p3, 3)]);
    s.update_project_sequence(p3, 1).unwrap();
    assert_eq!(project_order(&s), vec![(p3, 1), (p1, 2), (p2, 3)]);
    s.delete_project(p1).unwrap();
    assert_eq!(project_order(&s), vec![(p3, 1), (p2, 2)]);
    let listed = s.get_all_projects();
    assert_eq!(listed[1].title, "P2");
    assert_eq!(listed[1].description, Some("second".to_string()));
}

#[test]
fn created_members_are_numbered_in_creation_order() {
    let mut s = Store::new();
    let p = s.create_project("home".to_string(), None).unwrap();
    let mut ids = Vec::new();
    for n in 0..5 {
        ids.push(s.create_task(p, format!("t{}", n), None).unwrap());
    }
    let listed = s.get_tasks(p);
    assert_eq!(listed.len(), 5);
    for (i, t) in listed.iter().enumerate() {
        assert_eq!(t.id, ids[i]);
        assert_eq!(t.sequence, i as i64 + 1);
        assert_eq!(t.project_id, p);
        assert_eq!(t.title, format!("t{}", i));
    }
}

#[test]
fn out_of_bounds_moves_change_nothing() {
    let mut s = Store::new();
    let p = s.create_project("a".to_string(), None).unwrap();
    let q = s.create_project("b".to_string(), None).unwrap();
    assert_eq!(s.update_project_sequence(p, 0), Err(StoreError::InvalidPosition));
    assert_eq!(s.update_project_sequence(p, 3), Err(StoreError::InvalidPosition));
    assert_eq!(s.update_project_sequence(99, 1), Err(StoreError::NotFound));
    assert_eq!(project_order(&s), vec![(p, 1), (q, 2)]);
    let t1 = s.create_task(p, "x".to_string(), None).unwrap();
    let t2 = s.create_task(p, "y".to_string(), None).unwrap();
    assert_eq!(s.update_task_sequence(t1, 0), Err(StoreError::InvalidPosition));
    assert_eq!(s.update_task_sequence(t1, 3), Err(StoreError::InvalidPosition));
    assert_eq!(s.update_task_sequence(99, 1), Err(StoreError::NotFound));
    assert_eq!(task_order(&s, p), vec![(t1, 1), (t2, 2)]);
}

#[test]
fn moving_to_current_position_keeps_order() {
    let mut s = Store::new();
    let p = s.create_project("a".to_string(), None).unwrap();
    let t1 = s.create_task(p, "x".to_string(), None).unwrap();
    let t2 = s.create_task(p, "y".to_string(), None).unwrap();
    let t3 = s.create_task(p, "z".to_string(), None).unwrap();
    s.update_task_sequence(t2, 2).unwrap();
    assert_eq!(task_order(&s, p), vec![(t1, 1), (t2, 2), (t3, 3)]);
}

#[test]
fn task_move_leaves_other_projects_alone() {
    let mut s = Store::new();
    let a = s.create_project("A".to_string(), None).unwrap();
    let b = s.create_project("B".to_string(), None).unwrap();
    let a1 = s.create_task(a, "a1".to_string(), None).unwrap();
    let a2 = s.create_task(a, "a2".to_string(), None).unwrap();
    let a3 = s.create_task(a, "a3".to_string(), None).unwrap();
    let b1 = s.create_task(b, "b1".to_string(), None).unwrap();
    let b2 = s.create_task(b, "b2".to_string(), None).unwrap();
    s.update_task_sequence(a1, 3).unwrap();
    assert_eq!(task_order(&s, a), vec![(a2, 1), (a3, 2), (a1, 3)]);
    assert_eq!(task_order(&s, b), vec![(b1, 1), (b2, 2)]);
    let t = s.get_task(a1).unwrap();
    assert_eq!((t.project_id, t.sequence, t.title.as_str()), (a, 3, "a1"));
}

#[test]
fn delete_task_renumbers_its_project() {
    let mut s = Store::new();
    let p = s.create_project("a".to_string(), None).unwrap();
    let t1 = s.create_task(p, "x".to_string(), None).unwrap();
    let t2 = s.create_task(p, "y".to_string(), None).unwrap();
    let t3 = s.create_task(p, "z".to_string(), None).unwrap();
    s.delete_task(t1).unwrap();
    assert_eq!(task_order(&s, p), vec![(t2, 1), (t3, 2)]);
    assert_eq!(s.delete_task(t1), Err(StoreError::NotFound));
    assert_eq!(s.get_task(t1).unwrap_err(), StoreError::NotFound);
}

#[test]
fn deleting_a_project_removes_its_tasks() {
    let mut s = Store::new();
    let p = s.create_project("a".to_string(), None).unwrap();
    let t = s.create_task(p, "x".to_string(), None).unwrap();
    s.delete_project(p).unwrap();
    assert_eq!(s.get_task(t).unwrap_err(), StoreError::NotFound);
    assert!(s.get_tasks(p).is_empty());
    assert_eq!(s.delete_project(p), Err(StoreError::NotFound));
    assert_eq!(s.create_task(p, "y".to_string(), None), Err(StoreError::NotFound));
}

#[test]
fn completing_an_item_detaches_and_compacts() {
    let mut s = Store::new();
    let p = s.create_project("a".to_string(), None).unwrap();
    let t = s.create_task(p, "x".to_string(), None).unwrap();
    let i1 = s.create_task_item("one".to_string()).unwrap();
    let i2 = s.create_task_item("two".to_string()).unwrap();
    let i3 = s.create_task_item("three".to_string()).unwrap();
    assert_eq!(s.link_task_item(t, i1), Ok(1));
    assert_eq!(s.link_task_item(t, i2), Ok(2));
    assert_eq!(s.link_task_item(t, i3), Ok(3));
    s.update_task_item_content(i2, "two!".to_string(), TaskItemStatus::Completed).unwrap();
    assert_eq!(item_order(&s, t), vec![(i2, None), (i1, Some(1)), (i3, Some(2))]);
    let listed = s.get_task_items(t).unwrap();
    assert_eq!(listed[0].content, "two!");
    assert_eq!(listed[0].status, TaskItemStatus::Completed);
    assert_eq!(listed[1].status, TaskItemStatus::Pending);
}

#[test]
fn pending_update_keeps_positions() {
    let mut s = Store::new();
    let p = s.create_project("a".to_string(), None).unwrap();
    let t = s.create_task(p, "x".to_string(), None).unwrap();
    let i1 = s.create_task_item("one".to_string()).unwrap();
    let i2 = s.create_task_item("two".to_string()).unwrap();
    s.link_task_item(t, i1).unwrap();
    s.link_task_item(t, i2).unwrap();
    s.update_task_item_content(i1, "uno".to_string(), TaskItemStatus::Pending).unwrap();
    assert_eq!(item_order(&s, t), vec![(i1, Some(1)), (i2, Some(2))]);
    assert_eq!(s.get_task_items(t).unwrap()[0].content, "uno");
    assert_eq!(
        s.update_task_item_content(99, "z".to_string(), TaskItemStatus::Pending),
        Err(StoreError::NotFound)
    );
}

#[test]
fn relinking_moves_to_the_end_without_duplicating() {
    let mut s = Store::new();
    let p = s.create_project("a".to_string(), None).unwrap();
    let t = s.create_task(p, "x".to_string(), None).unwrap();
    let i1 = s.create_task_item("one".to_string()).unwrap();
    let i2 = s.create_task_item("two".to_string()).unwrap();
    let i3 = s.create_task_item("three".to_string()).unwrap();
    s.link_task_item(t, i1).unwrap();
    s.link_task_item(t, i2).unwrap();
    s.link_task_item(t, i3).unwrap();
    assert_eq!(s.link_task_item(t, i1), Ok(3));
    assert_eq!(item_order(&s, t), vec![(i2, Some(1)), (i3, Some(2)), (i1, Some(3))]);
    assert_eq!(s.link_task_item(t, i1), Ok(3));
    assert_eq!(item_order(&s, t), vec![(i2, Some(1)), (i3, Some(2)), (i1, Some(3))]);
}

#[test]
fn relinking_a_detached_item_reactivates_it() {
    let mut s = Store::new();
    let p = s.create_project("a".to_string(), None).unwrap();
    let t = s.create_task(p, "x".to_string(), None).unwrap();
    let i1 = s.create_task_item("one".to_string()).unwrap();
    let i2 = s.create_task_item("two".to_string()).unwrap();
    s.link_task_item(t, i1).unwrap();
    s.link_task_item(t, i2).unwrap();
    s.update_task_item_content(i1, "one".to_string(), TaskItemStatus::Canceled).unwrap();
    assert_eq!(item_order(&s, t), vec![(i1, None), (i2, Some(1))]);
    assert_eq!(s.link_task_item(t, i1), Ok(2));
    assert_eq!(item_order(&s, t), vec![(i2, Some(1)), (i1, Some(2))]);
}

#[test]
fn link_errors() {
    let mut s = Store::new();
    let p = s.create_project("a".to_string(), None).unwrap();
    let t = s.create_task(p, "x".to_string(), None).unwrap();
    let i = s.create_task_item("one".to_string()).unwrap();
    assert_eq!(s.link_task_item(99, i), Err(StoreError::NotFound));
    assert_eq!(s.link_task_item(t, 99), Err(StoreError::NotFound));
    assert_eq!(s.get_task_items(99).unwrap_err(), StoreError::NotFound);
    assert!(s.get_task_items(t).unwrap().is_empty());
}

#[test]
fn item_moves_within_one_task() {
    let mut s = Store::new();
    let p = s.create_project("a".to_string(), None).unwrap();
    let t = s.create_task(p, "x".to_string(), None).unwrap();
    let u = s.create_task(p, "y".to_string(), None).unwrap();
    let i1 = s.create_task_item("one".to_string()).unwrap();
    let i2 = s.create_task_item("two".to_string()).unwrap();
    let i3 = s.create_task_item("three".to_string()).unwrap();
    for i in [i1, i2, i3] {
        s.link_task_item(t, i).unwrap();
    }
    s.link_task_item(u, i1).unwrap();
    s.link_task_item(u, i3).unwrap();
    s.update_task_item_sequence(t, i3, 1).unwrap();
    assert_eq!(item_order(&s, t), vec![(i3, Some(1)), (i1, Some(2)), (i2, Some(3))]);
    assert_eq!(item_order(&s, u), vec![(i1, Some(1)), (i3, Some(2))]);
    assert_eq!(s.update_task_item_sequence(t, i3, 0), Err(StoreError::InvalidPosition));
    assert_eq!(s.update_task_item_sequence(t, i3, 4), Err(StoreError::InvalidPosition));
    assert_eq!(s.update_task_item_sequence(u, i2, 1), Err(StoreError::NotFound));
    assert_eq!(s.update_task_item_sequence(99, i2, 1), Err(StoreError::NotFound));
}

#[test]
fn deleting_an_item_removes_its_links_everywhere() {
    let mut s = Store::new();
    let p = s.create_project("a".to_string(), None).unwrap();
    let t = s.create_task(p, "x".to_string(), None).unwrap();
    let u = s.create_task(p, "y".to_string(), None).unwrap();
    let i1 = s.create_task_item("one".to_string()).unwrap();
    let i2 = s.create_task_item("two".to_string()).unwrap();
    s.link_task_item(t, i1).unwrap();
    s.link_task_item(t, i2).unwrap();
    s.link_task_item(u, i2).unwrap();
    s.link_task_item(u, i1).unwrap();
    s.update_task_item_content(i1, "one".to_string(), TaskItemStatus::Completed).unwrap();
    s.delete_task_item(i2).unwrap();
    assert_eq!(item_order(&s, t), vec![(i1, None)]);
    assert_eq!(item_order(&s, u), vec![(i1, None)]);
    assert_eq!(s.delete_task_item(i2), Err(StoreError::NotFound));
}

#[test]
fn content_updates_keep_positions() {
    let mut s = Store::new();
    let p = s.create_project("a".to_string(), None).unwrap();
    let q = s.create_project("b".to_string(), None).unwrap();
    let t = s.create_task(q, "x".to_string(), None).unwrap();
    s.update_project_content(q, "bee".to_string(), Some("d".to_string())).unwrap();
    let got = s.get_project(q).unwrap();
    assert_eq!((got.title.as_str(), got.description, got.sequence), ("bee", Some("d".to_string()), 2));
    assert_eq!(s.get_project(p).unwrap().sequence, 1);
    s.update_task_content(t, "ex".to_string(), None).unwrap();
    assert_eq!(s.get_task(t).unwrap().title, "ex");
    assert_eq!(s.update_task_content(99, "z".to_string(), None), Err(StoreError::NotFound));
    assert_eq!(s.update_project_content(99, "z".to_string(), None), Err(StoreError::NotFound));
    assert_eq!(s.get_project(99).unwrap_err(), StoreError::NotFound);
}

#[test]
fn ids_are_fresh_across_kinds() {
    let mut s = Store::new();
    let p = s.create_project("a".to_string(), None).unwrap();
    let t = s.create_task(p, "x".to_string(), None).unwrap();
    let i = s.create_task_item("one".to_string()).unwrap();
    assert_eq!((p, t, i), (1, 2, 3));
    assert_eq!(s.find_project(p), Some(0));
    assert_eq!(s.find_task(t), Some((0, 0)));
    assert_eq!(s.find_item(i), Some(0));
}
