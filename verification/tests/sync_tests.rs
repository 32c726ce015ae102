use todosync::peer::PeerRegistry;
use todosync::store::TodoStore;
use todosync::sync::{begin_sync, finish_sync};
use todosync::time::current_timestamp;
use todosync::todo::{Day, EngineError, Todo};

fn todo(id: u64, day: Day, content: &str, position: u64, last_modified: u64) -> Todo {
    Todo { id, day, content: content.to_string(), position, last_modified }
}

#[test]
fn sync_requires_an_identity() {
    let store = TodoStore::new();
    let reg = PeerRegistry::new();
    let r = begin_sync(&store, &reg);
    assert!(matches!(r, Err(EngineError::NoIdentity)));

    let mut store = store;
    let mut reg = reg;
    let r = finish_sync(&mut store, &mut reg, &vec![], 10);
    assert!(matches!(r, Err(EngineError::NoIdentity)));
    assert!(reg.last_synced().is_none());
}

#[test]
fn a_full_round_merges_and_records_the_time() {
    let mut store = TodoStore::new();
    let mut reg = PeerRegistry::new();
    store.add_todo(Day::Monday, "local".to_string(), 100).unwrap();
    reg.connect_peer(None, None, None, 1);

    let snapshot = begin_sync(&store, &reg).unwrap();
    assert_eq!(snapshot.len(), 1);
    assert_eq!(snapshot[0].content, "local");

    // the transport collaborator would exchange the snapshot here; this
    // stands in for what the counterpart returned
    let remote = vec![
        todo(1, Day::Monday, "local v2", 0, 150),
        todo(8, Day::Tuesday, "from peer", 0, 90),
    ];
    let r = finish_sync(&mut store, &mut reg, &remote, 500);
    assert!(r.is_ok());
    assert_eq!(reg.last_synced(), Some(500));
    let monday = store.get_todos(Day::Monday);
    assert_eq!(monday.len(), 1);
    assert_eq!(monday[0].content, "local v2");
    let tuesday = store.get_todos(Day::Tuesday);
    assert_eq!(tuesday.len(), 1);
    assert_eq!(tuesday[0].id, 8);
}

#[test]
fn a_round_that_never_finishes_leaves_state_intact() {
    let mut store = TodoStore::new();
    let mut reg = PeerRegistry::new();
    store.add_todo(Day::Monday, "untouched".to_string(), 100).unwrap();
    reg.connect_peer(None, None, None, 1);
    let prev = reg.begin_attempt();
    let _snapshot = begin_sync(&store, &reg).unwrap();
    // the transport fails here: the round is abandoned
    reg.abort_attempt(prev);
    let monday = store.get_todos(Day::Monday);
    assert_eq!(monday.len(), 1);
    assert_eq!(monday[0].content, "untouched");
    assert!(reg.last_synced().is_none());
}

#[test]
fn the_clock_reads_after_the_epoch() {
    let t = current_timestamp();
    assert!(t > 0);
}
