use todosync::peer::{PeerRegistry, SyncStatus};

#[test]
fn self_registration_alone_is_not_a_connection() {
    let mut reg = PeerRegistry::new();
    assert!(!reg.is_peer_connected());
    assert_eq!(reg.get_sync_status(), SyncStatus::Disconnected);
    // no peer id given: a fresh identity is generated and stored
    let own = reg.connect_peer(None, None, None, 10);
    assert_eq!(reg.get_peer_id().as_deref(), Some(own.as_str()));
    // the status is connected, but no peer was added, so the node does not
    // count as connected to anyone yet
    assert_eq!(reg.get_sync_status(), SyncStatus::Connected);
    assert!(!reg.is_peer_connected());
    // connecting to an actual peer completes the picture
    let given = reg.connect_peer(Some("peer-a".to_string()), None, None, 20);
    assert_eq!(given, "peer-a");
    assert!(reg.is_peer_connected());
}

#[test]
fn generated_identity_has_uuid_shape() {
    let mut reg = PeerRegistry::new();
    let own = reg.connect_peer(None, None, None, 10);
    assert_eq!(own.len(), 36);
    assert!(own.chars().all(|c| c == '-' || c.is_ascii_lowercase() || c.is_ascii_digit()));
}

#[test]
fn disconnecting_the_last_peer_drives_status_disconnected() {
    let mut reg = PeerRegistry::new();
    reg.connect_peer(None, None, None, 5);
    reg.connect_peer(Some("p1".to_string()), None, None, 6);
    reg.connect_peer(Some("p2".to_string()), None, None, 7);
    assert!(reg.is_peer_connected());
    reg.disconnect_peer(&"p1".to_string());
    // one peer remains reachable
    assert!(reg.is_peer_connected());
    assert_eq!(reg.get_sync_status(), SyncStatus::Connected);
    reg.disconnect_peer(&"p2".to_string());
    assert!(!reg.is_peer_connected());
    assert_eq!(reg.get_sync_status(), SyncStatus::Disconnected);
}

#[test]
fn reconnecting_a_known_peer_does_not_duplicate_it() {
    let mut reg = PeerRegistry::new();
    reg.connect_peer(None, None, None, 5);
    reg.connect_peer(Some("p1".to_string()), None, None, 6);
    reg.connect_peer(Some("p1".to_string()), None, None, 7);
    assert!(reg.is_peer_connected());
    // were "p1" in the reachable set twice, one disconnect would leave it
    reg.disconnect_peer(&"p1".to_string());
    assert!(!reg.is_peer_connected());
    assert_eq!(reg.get_sync_status(), SyncStatus::Disconnected);
}

#[test]
fn disconnect_of_unknown_peer_is_harmless() {
    let mut reg = PeerRegistry::new();
    reg.connect_peer(Some("p1".to_string()), None, None, 6);
    reg.disconnect_peer(&"stranger".to_string());
    assert!(reg.get_peer_id().is_none());
    assert_eq!(reg.get_sync_status(), SyncStatus::Connected);
}

#[test]
fn a_failed_attempt_restores_the_previous_status() {
    let mut reg = PeerRegistry::new();
    reg.connect_peer(None, None, None, 5);
    reg.connect_peer(Some("p1".to_string()), None, None, 6);
    let prev = reg.begin_attempt();
    assert_eq!(reg.get_sync_status(), SyncStatus::Connecting);
    assert!(!reg.is_peer_connected());
    reg.abort_attempt(prev);
    assert_eq!(reg.get_sync_status(), SyncStatus::Connected);
    assert!(reg.is_peer_connected());
}

#[test]
fn rows_are_upserted_on_connect_and_flipped_on_disconnect() {
    let mut reg = PeerRegistry::new();
    reg.connect_peer(
        Some("p1".to_string()),
        Some("laptop".to_string()),
        Some("desktop".to_string()),
        60,
    );
    let rows = reg.export_connections();
    assert_eq!(rows.len(), 1);
    assert_eq!(rows[0].peer_id, "p1");
    assert_eq!(rows[0].last_sync, 60);
    assert_eq!(rows[0].device_name.as_deref(), Some("laptop"));
    assert_eq!(rows[0].device_type.as_deref(), Some("desktop"));
    assert_eq!(rows[0].status, SyncStatus::Connected);
    // reconnecting updates the same row rather than adding one
    reg.connect_peer(Some("p1".to_string()), None, None, 70);
    let rows = reg.export_connections();
    assert_eq!(rows.len(), 1);
    assert_eq!(rows[0].last_sync, 70);
    assert_eq!(rows[0].device_name, None);
    // an explicit disconnect keeps the row, with its status flipped
    reg.disconnect_peer(&"p1".to_string());
    let rows = reg.export_connections();
    assert_eq!(rows.len(), 1);
    assert_eq!(rows[0].status, SyncStatus::Disconnected);
}

#[test]
fn rows_survive_a_reload_but_peer_state_does_not() {
    let mut reg = PeerRegistry::new();
    reg.connect_peer(None, None, None, 1);
    reg.connect_peer(Some("p1".to_string()), None, None, 2);
    let rows = reg.export_connections();
    let reloaded = PeerRegistry::from_rows(rows).unwrap();
    assert_eq!(reloaded.export_connections().len(), 1);
    assert!(reloaded.get_peer_id().is_none());
    assert!(!reloaded.is_peer_connected());
    assert_eq!(reloaded.get_sync_status(), SyncStatus::Disconnected);
}
