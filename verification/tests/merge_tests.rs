use todosync::merge::merge;
use todosync::store::TodoStore;
use todosync::todo::{Day, Todo};

fn todo(id: u64, day: Day, content: &str, position: u64, last_modified: u64) -> Todo {
    Todo { id, day, content: content.to_string(), position, last_modified }
}

#[test]
fn remote_newer_wins_then_older_is_ignored() {
    // start with (1, Monday, "buy milk", rank 0, t=100)
    let mut s = TodoStore::new();
    s.add_todo(Day::Monday, "buy milk".to_string(), 100).unwrap();
    // import a newer copy at t=200
    s.import_merge(&vec![todo(1, Day::Monday, "buy milk v2", 3, 200)]);
    let listed = s.get_todos(Day::Monday);
    assert_eq!(listed.len(), 1);
    assert_eq!(listed[0].content, "buy milk v2");
    assert_eq!(listed[0].last_modified, 200);
    // the local ordering rank is kept on an overwrite
    assert_eq!(listed[0].position, 0);
    // import the original again at t=50: no change, 50 < 200
    s.import_merge(&vec![todo(1, Day::Monday, "buy milk", 0, 50)]);
    let listed = s.get_todos(Day::Monday);
    assert_eq!(listed[0].content, "buy milk v2");
    assert_eq!(listed[0].last_modified, 200);
}

#[test]
fn equal_timestamps_are_a_tie_and_local_wins() {
    let mut s = TodoStore::new();
    s.add_todo(Day::Monday, "A".to_string(), 100).unwrap();
    s.import_merge(&vec![todo(1, Day::Monday, "B", 0, 100)]);
    let listed = s.get_todos(Day::Monday);
    assert_eq!(listed[0].content, "A");
    assert_eq!(listed[0].last_modified, 100);
}

#[test]
fn importing_own_export_changes_nothing() {
    let mut s = TodoStore::new();
    s.add_todo(Day::Monday, "one".to_string(), 10).unwrap();
    s.add_todo(Day::Tuesday, "two".to_string(), 20).unwrap();
    s.add_todo(Day::Sunday, "three".to_string(), 30).unwrap();
    s.move_todo_to_day(2, Day::Friday, 25).unwrap();
    let before = s.export_all();
    let snapshot = s.export_all();
    s.import_merge(&snapshot);
    let after = s.export_all();
    assert_eq!(before.len(), after.len());
    for (x, y) in before.iter().zip(after.iter()) {
        assert_eq!(x.id, y.id);
        assert_eq!(x.day, y.day);
        assert_eq!(x.content, y.content);
        assert_eq!(x.position, y.position);
        assert_eq!(x.last_modified, y.last_modified);
    }
}

#[test]
fn merge_never_deletes_a_local_record() {
    let mut s = TodoStore::new();
    s.add_todo(Day::Monday, "kept".to_string(), 10).unwrap();
    s.add_todo(Day::Monday, "updated".to_string(), 10).unwrap();
    // the remote snapshot lacks id 1 entirely
    s.import_merge(&vec![todo(2, Day::Monday, "updated v2", 1, 99)]);
    let listed = s.get_todos(Day::Monday);
    assert_eq!(listed.len(), 2);
    assert!(listed.iter().any(|t| t.id == 1 && t.content == "kept"));
    assert!(listed.iter().any(|t| t.id == 2 && t.content == "updated v2"));
}

#[test]
fn unknown_remote_id_is_inserted_unchanged() {
    let mut s = TodoStore::new();
    s.add_todo(Day::Monday, "local".to_string(), 10).unwrap();
    s.import_merge(&vec![todo(42, Day::Thursday, "from afar", 7, 5)]);
    let thursday = s.get_todos(Day::Thursday);
    assert_eq!(thursday.len(), 1);
    assert_eq!(thursday[0].id, 42);
    assert_eq!(thursday[0].content, "from afar");
    assert_eq!(thursday[0].position, 7);
    assert_eq!(thursday[0].last_modified, 5);
    // ids created afterwards stay above every imported id
    let next = s.add_todo(Day::Monday, "later".to_string(), 10).unwrap();
    assert_eq!(next, 43);
}

#[test]
fn staged_merge_partitions_the_remote_snapshot() {
    let local = vec![
        todo(1, Day::Monday, "a", 0, 100),
        todo(2, Day::Monday, "b", 1, 100),
    ];
    let remote = vec![
        todo(1, Day::Monday, "a new", 0, 150), // newer: an update
        todo(2, Day::Monday, "b old", 1, 50),  // older: discarded
        todo(9, Day::Friday, "c", 0, 10),      // unknown: an insert
    ];
    let (updates, inserts) = merge(&local, &remote);
    assert_eq!(updates.len(), 1);
    assert_eq!(updates[0].id, 1);
    assert_eq!(updates[0].content, "a new");
    assert_eq!(inserts.len(), 1);
    assert_eq!(inserts[0].id, 9);
    assert_eq!(inserts[0].content, "c");
}

#[test]
fn duplicate_ids_within_one_snapshot_apply_in_order() {
    // two records carrying the same id: the first is inserted, the second
    // then overwrites it, since its timestamp is strictly greater
    let mut s = TodoStore::new();
    s.import_merge(&vec![
        todo(5, Day::Monday, "first", 0, 10),
        todo(5, Day::Monday, "second", 4, 20),
    ]);
    let listed = s.get_todos(Day::Monday);
    assert_eq!(listed.len(), 1);
    assert_eq!(listed[0].content, "second");
    assert_eq!(listed[0].last_modified, 20);
    // the overwrite keeps the rank the record was inserted with
    assert_eq!(listed[0].position, 0);
}
