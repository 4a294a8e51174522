use peapod::protocol::Beacon;
use peapod::state::{AppState, ConnectionRegistry, PeerTable};

#[test]
fn registry_mark_contains_remove() {
    let mut reg = ConnectionRegistry::new();
    assert!(!reg.contains("a"));
    assert!(reg.mark("a".to_string()));
    assert!(reg.contains("a"));
    assert!(!reg.mark("a".to_string()));
    assert!(reg.mark("b".to_string()));
    assert!(reg.remove("a"));
    assert!(!reg.contains("a"));
    assert!(reg.contains("b"));
    assert!(!reg.remove("a"));
}

#[test]
fn get_connections_lists_ids() {
    let mut reg = ConnectionRegistry::new();
    reg.mark("a".to_string());
    reg.mark("b".to_string());
    let ids = reg.get_connections();
    assert_eq!(ids, vec!["a".to_string(), "b".to_string()]);
}

#[test]
fn peer_table_upsert_and_list() {
    let mut peers = PeerTable::new();
    assert!(peers.upsert(Beacon { device_id: "x".to_string(), name: "X".to_string(), port: 1 }));
    assert!(!peers.upsert(Beacon { device_id: "x".to_string(), name: "X2".to_string(), port: 2 }));
    assert!(peers.contains("x"));
    assert!(!peers.contains("y"));
    let listed = peers.list();
    assert_eq!(listed.len(), 1);
    assert_eq!(listed[0].name, "X2");
    assert_eq!(listed[0].port, 2);
}

#[test]
fn peer_statuses_reflect_connections() {
    let mut state = AppState::new();
    state.handle_beacon("me", Beacon { device_id: "a".to_string(), name: "A".to_string(), port: 1 });
    state.handle_beacon("me", Beacon { device_id: "b".to_string(), name: "B".to_string(), port: 2 });
    // peer "b" hangs up
    state.active_connections.remove("b");
    let rows = state.peer_statuses();
    assert_eq!(rows.len(), 2);
    for row in rows {
        if row.id == "a" {
            assert!(row.is_connected);
            assert_eq!(row.name, "A");
            assert_eq!(row.port, 1);
        } else {
            assert_eq!(row.id, "b");
            assert!(!row.is_connected);
        }
    }
    assert_eq!(state.chunk_manager.get_active_transfers(), 0);
}

#[test]
fn default_state_is_empty() {
    let state = AppState::default();
    assert_eq!(state.peers.list().len(), 0);
    assert_eq!(state.active_connections.get_connections().len(), 0);
    assert_eq!(state.chunk_manager.get_active_transfers(), 0);
}
