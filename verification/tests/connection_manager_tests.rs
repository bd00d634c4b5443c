use massive_graph_core::connection_manager::{ConnectionManager, ConnectionState, ConnectionStatus};

#[test]
fn new_manager_has_no_connections() {
    let m = ConnectionManager::new(7, true);
    assert_eq!(m.connection_id, 7);
    assert!(m.is_server);
    assert!(!m.has_connection(&1));
    assert_eq!(m.get_connection(&1), None);
    assert!(m.get_active_connections().is_empty());
}

#[test]
fn added_connection_starts_connecting() {
    let mut m = ConnectionManager::new(1, false);
    m.add_connection(42, true);
    assert!(m.has_connection(&42));
    assert_eq!(
        m.get_connection(&42),
        Some(ConnectionState { remote_id: 42, is_control: true, status: ConnectionStatus::Connecting })
    );
    assert!(m.get_active_connections().is_empty());
}

#[test]
fn only_connected_peers_are_active() {
    let mut m = ConnectionManager::new(1, true);
    m.add_connection(10, true);
    m.add_connection(11, false);
    m.add_connection(12, false);
    m.update_status(&10, ConnectionStatus::Connected);
    m.update_status(&12, ConnectionStatus::Connected);
    m.update_status(&11, ConnectionStatus::Closed);
    let mut active = m.get_active_connections();
    active.sort();
    assert_eq!(active, vec![10, 12]);
    assert_eq!(m.get_connection(&11).unwrap().status, ConnectionStatus::Closed);
    assert!(!m.get_connection(&11).unwrap().is_control);
}

#[test]
fn update_of_unknown_connection_changes_nothing() {
    let mut m = ConnectionManager::new(1, true);
    m.add_connection(5, false);
    m.update_status(&6, ConnectionStatus::Connected);
    assert!(!m.has_connection(&6));
    assert_eq!(m.get_connection(&5).unwrap().status, ConnectionStatus::Connecting);
}

#[test]
fn removed_connection_is_gone_and_readd_resets_status() {
    let mut m = ConnectionManager::new(1, true);
    m.add_connection(9, false);
    m.update_status(&9, ConnectionStatus::Connected);
    assert_eq!(m.get_active_connections(), vec![9]);
    m.remove_connection(&9);
    assert!(!m.has_connection(&9));
    assert!(m.get_active_connections().is_empty());
    m.add_connection(9, true);
    assert_eq!(
        m.get_connection(&9),
        Some(ConnectionState { remote_id: 9, is_control: true, status: ConnectionStatus::Connecting })
    );
}
