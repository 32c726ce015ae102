use todosync::store::TodoStore;
use todosync::todo::{Day, EngineError, Todo};

fn todo(id: u64, day: Day, content: &str, position: u64, last_modified: u64) -> Todo {
    Todo { id, day, content: content.to_string(), position, last_modified }
}

#[test]
fn add_assigns_ids_and_positions_in_sequence() {
    let mut s = TodoStore::new();
    let a = s.add_todo(Day::Monday, "one".to_string(), 10).unwrap();
    let b = s.add_todo(Day::Monday, "two".to_string(), 20).unwrap();
    let c = s.add_todo(Day::Tuesday, "three".to_string(), 30).unwrap();
    assert_eq!(a, 1);
    assert_eq!(b, 2);
    assert_eq!(c, 3);
    let monday = s.get_todos(Day::Monday);
    assert_eq!(monday.len(), 2);
    assert_eq!(monday[0].content, "one");
    assert_eq!(monday[0].position, 0);
    assert_eq!(monday[0].last_modified, 10);
    assert_eq!(monday[1].content, "two");
    assert_eq!(monday[1].position, 1);
    let tuesday = s.get_todos(Day::Tuesday);
    assert_eq!(tuesday.len(), 1);
    assert_eq!(tuesday[0].content, "three");
    assert_eq!(tuesday[0].position, 0);
}

#[test]
fn get_todos_sorts_by_position() {
    let mut s = TodoStore::new();
    s.add_todo(Day::Friday, "first".to_string(), 1).unwrap();
    s.add_todo(Day::Friday, "second".to_string(), 2).unwrap();
    s.add_todo(Day::Friday, "third".to_string(), 3).unwrap();
    // invert the manual order: id 1 -> rank 2, id 2 -> rank 1, id 3 -> rank 0
    s.update_positions(&vec![(1, 2), (2, 1), (3, 0)], 9);
    let listed = s.get_todos(Day::Friday);
    assert_eq!(listed.len(), 3);
    assert_eq!(listed[0].content, "third");
    assert_eq!(listed[1].content, "second");
    assert_eq!(listed[2].content, "first");
    assert!(listed.iter().all(|t| t.last_modified == 9));
}

#[test]
fn delete_is_idempotent() {
    let mut s = TodoStore::new();
    let id = s.add_todo(Day::Monday, "x".to_string(), 1).unwrap();
    s.delete_todo(999); // unknown: a no-op
    assert_eq!(s.get_todos(Day::Monday).len(), 1);
    s.delete_todo(id);
    assert_eq!(s.get_todos(Day::Monday).len(), 0);
    s.delete_todo(id); // again: still a no-op
    assert_eq!(s.get_todos(Day::Monday).len(), 0);
}

#[test]
fn deleted_id_is_never_reused() {
    let mut s = TodoStore::new();
    let a = s.add_todo(Day::Monday, "a".to_string(), 1).unwrap();
    s.delete_todo(a);
    let b = s.add_todo(Day::Monday, "b".to_string(), 2).unwrap();
    assert_ne!(a, b);
    assert_eq!(b, 2);
}

#[test]
fn move_todo_unknown_id_is_not_found_and_store_unchanged() {
    let mut s = TodoStore::new();
    s.add_todo(Day::Monday, "stay".to_string(), 5).unwrap();
    let before: Vec<Todo> = s.export_all();
    let r = s.move_todo_to_day(99, Day::Tuesday, 50);
    assert!(matches!(r, Err(EngineError::NotFound)));
    let after = s.export_all();
    assert_eq!(before.len(), after.len());
    for (x, y) in before.iter().zip(after.iter()) {
        assert_eq!(x.id, y.id);
        assert_eq!(x.day, y.day);
        assert_eq!(x.content, y.content);
        assert_eq!(x.position, y.position);
        assert_eq!(x.last_modified, y.last_modified);
    }
}

#[test]
fn move_todo_changes_day_and_timestamp_only() {
    let mut s = TodoStore::new();
    let id = s.add_todo(Day::Monday, "errand".to_string(), 5).unwrap();
    let r = s.move_todo_to_day(id, Day::Wednesday, 77);
    assert!(r.is_ok());
    assert_eq!(s.get_todos(Day::Monday).len(), 0);
    let moved = s.get_todos(Day::Wednesday);
    assert_eq!(moved.len(), 1);
    assert_eq!(moved[0].id, id);
    assert_eq!(moved[0].content, "errand");
    assert_eq!(moved[0].position, 0);
    assert_eq!(moved[0].last_modified, 77);
}

#[test]
fn replace_order_with_empty_list_empties_only_that_day() {
    let mut s = TodoStore::new();
    s.add_todo(Day::Monday, "m1".to_string(), 1).unwrap();
    s.add_todo(Day::Monday, "m2".to_string(), 2).unwrap();
    s.add_todo(Day::Tuesday, "t1".to_string(), 3).unwrap();
    let r = s.update_todo_order(Day::Monday, &vec![], 9);
    assert!(r.is_ok());
    assert_eq!(s.get_todos(Day::Monday).len(), 0);
    let tuesday = s.get_todos(Day::Tuesday);
    assert_eq!(tuesday.len(), 1);
    assert_eq!(tuesday[0].content, "t1");
    assert_eq!(tuesday[0].last_modified, 3);
}

#[test]
fn replace_order_reinserts_with_fresh_sequence() {
    let mut s = TodoStore::new();
    s.add_todo(Day::Monday, "old a".to_string(), 1).unwrap();
    s.add_todo(Day::Monday, "old b".to_string(), 2).unwrap();
    let contents = vec!["new b".to_string(), "new a".to_string(), "new c".to_string()];
    let r = s.update_todo_order(Day::Monday, &contents, 40);
    assert!(r.is_ok());
    let monday = s.get_todos(Day::Monday);
    assert_eq!(monday.len(), 3);
    assert_eq!(monday[0].content, "new b");
    assert_eq!(monday[1].content, "new a");
    assert_eq!(monday[2].content, "new c");
    assert_eq!(monday[0].position, 0);
    assert_eq!(monday[1].position, 1);
    assert_eq!(monday[2].position, 2);
    assert!(monday.iter().all(|t| t.last_modified == 40));
    // fresh ids, above every id used before
    assert!(monday.iter().all(|t| t.id > 2));
}

#[test]
fn export_is_sorted_by_id() {
    let mut s = TodoStore::new();
    s.add_todo(Day::Monday, "a".to_string(), 1).unwrap();
    s.add_todo(Day::Tuesday, "b".to_string(), 2).unwrap();
    // imported records carry their own ids, out of order
    s.import_merge(&vec![
        todo(50, Day::Friday, "far", 0, 5),
        todo(7, Day::Friday, "near", 1, 5),
    ]);
    let all = s.export_all();
    let ids: Vec<u64> = all.iter().map(|t| t.id).collect();
    assert_eq!(ids, vec![1, 2, 7, 50]);
}

#[test]
fn from_records_rejects_duplicate_ids() {
    let r = TodoStore::from_records(
        vec![todo(1, Day::Monday, "a", 0, 1), todo(1, Day::Tuesday, "b", 0, 2)],
        5,
    );
    assert!(matches!(r, Err(EngineError::Validation)));
}

#[test]
fn from_records_rejects_id_above_counter() {
    let r = TodoStore::from_records(vec![todo(9, Day::Monday, "a", 0, 1)], 5);
    assert!(matches!(r, Err(EngineError::Validation)));
}

#[test]
fn from_records_accepts_consistent_set() {
    let s = TodoStore::from_records(vec![todo(3, Day::Monday, "a", 0, 1)], 5).unwrap();
    let all = s.export_all();
    assert_eq!(all.len(), 1);
    assert_eq!(all[0].id, 3);
}

#[test]
fn add_fails_with_storage_error_when_id_space_is_exhausted() {
    let mut s = TodoStore::from_records(vec![], u64::MAX).unwrap();
    let r = s.add_todo(Day::Monday, "late".to_string(), 1);
    assert!(matches!(r, Err(EngineError::Storage)));
    let r2 = s.update_todo_order(Day::Monday, &vec!["x".to_string()], 1);
    assert!(matches!(r2, Err(EngineError::Storage)));
}
