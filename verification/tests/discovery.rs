use peapod::protocol::Beacon;
use peapod::state::AppState;

fn beacon(id: &str, name: &str, port: u16) -> Beacon {
    Beacon { device_id: id.to_string(), name: name.to_string(), port }
}

#[test]
fn loopback_beacon_ignored() {
    let mut state = AppState::new();
    let out = state.handle_beacon("me", beacon("me", "Myself", 50001));
    assert!(!out.newly_discovered);
    assert!(!out.connect);
    assert_eq!(state.peers.list().len(), 0);
    assert_eq!(state.active_connections.get_connections().len(), 0);
}

#[test]
fn repeated_beacons_fire_observer_once() {
    let mut state = AppState::new();
    let mut discoveries = 0;
    let mut connects = 0;
    for _ in 0..3 {
        let out = state.handle_beacon("me", beacon("peer-1", "Node", 50002));
        if out.newly_discovered {
            discoveries += 1;
        }
        if out.connect {
            connects += 1;
        }
    }
    assert_eq!(discoveries, 1);
    assert_eq!(connects, 1);
    let peers = state.peers.list();
    assert_eq!(peers.len(), 1);
    assert_eq!(peers[0].device_id, "peer-1");
}

#[test]
fn refresh_updates_entry_without_reconnect() {
    let mut state = AppState::new();
    let first = state.handle_beacon("me", beacon("peer-1", "Old Name", 50002));
    assert!(first.newly_discovered && first.connect);
    let second = state.handle_beacon("me", beacon("peer-1", "New Name", 50099));
    assert!(!second.newly_discovered);
    assert!(!second.connect);
    let peers = state.peers.list();
    assert_eq!(peers.len(), 1);
    assert_eq!(peers[0].name, "New Name");
    assert_eq!(peers[0].port, 50099);
}

#[test]
fn no_connect_when_already_registered() {
    let mut state = AppState::new();
    assert!(state.active_connections.mark("peer-1".to_string()));
    let out = state.handle_beacon("me", beacon("peer-1", "Node", 50002));
    assert!(out.newly_discovered);
    assert!(!out.connect);
}

#[test]
fn distinct_peers_each_connect() {
    let mut state = AppState::new();
    let a = state.handle_beacon("me", beacon("peer-1", "A", 1));
    let b = state.handle_beacon("me", beacon("peer-2", "B", 2));
    assert!(a.newly_discovered && a.connect);
    assert!(b.newly_discovered && b.connect);
    assert_eq!(state.peers.list().len(), 2);
    assert_eq!(state.active_connections.get_connections().len(), 2);
}
