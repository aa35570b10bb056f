use java_multiversion::connection::{
    bind_player, is_bound, player_key, prune_unbound, remove_connection, remove_player, with_connection, Connections,
    EntityTracker, UserConnection, MAX_UNBOUND_CONNECTIONS, PRE_PLAYER_CONNECTION_TTL,
};
use java_multiversion::version;
use std::collections::HashMap;

const SECOND: u64 = 1_000_000_000;

#[test]
fn state_survives_between_calls_and_is_dropped_on_remove() {
    let mut connections = Connections::new();
    {
        let connection = with_connection(&mut connections, 7, version::V_1_20, 0);
        connection.entity_tracker.add(3, 12);
        connection.game_time = Some(9);
    }
    {
        let connection = with_connection(&mut connections, 7, version::V_1_19, 1);
        assert_eq!(connection.version, version::V_1_19);
        assert_eq!(connection.entity_tracker.entity_type(3), Some(12));
        assert_eq!(connection.game_time, Some(9));
    }
    remove_connection(&mut connections, 7);
    {
        let connection = with_connection(&mut connections, 7, version::V_1_19, 2);
        assert!(connection.entity_tracker.entity_type(3).is_none());
        assert!(connection.game_time.is_none());
    }
    remove_connection(&mut connections, 7);
}

#[test]
fn clearing_the_tracker_forgets_every_entity() {
    let mut tracker = EntityTracker::new();
    tracker.add(1, 2);
    tracker.client_entity_id = Some(1);
    tracker.remove(1);
    assert!(tracker.entity_type(1).is_none());
    tracker.add(4, 5);
    tracker.clear();
    assert!(tracker.entity_type(4).is_none());
}

#[test]
fn a_connection_starts_unbound() {
    let mut connections = Connections::new();
    with_connection(&mut connections, 8, version::V_1_20, 0);
    assert!(!is_bound(&connections, 8));
    remove_connection(&mut connections, 8);
}

#[test]
fn pruning_removes_expired_and_excess_unbound_connections_only() {
    let now = 10_000 * SECOND;
    let mut connections: HashMap<u64, UserConnection> = HashMap::new();
    let mut expired = UserConnection::new(1, version::V_1_20);
    expired.last_used = now - PRE_PLAYER_CONNECTION_TTL - SECOND;
    connections.insert(1, expired);

    let mut active_player = UserConnection::new(2, version::V_1_20);
    active_player.last_used = now - PRE_PLAYER_CONNECTION_TTL - SECOND;
    active_player.bound = true;
    connections.insert(2, active_player);

    for id in 10..(10 + MAX_UNBOUND_CONNECTIONS as u64 + 1) {
        let mut connection = UserConnection::new(id, version::V_1_20);
        // A tenth of a second apart, so that none of them has expired.
        connection.last_used = now - (id - 9) * (SECOND / 10);
        connections.insert(id, connection);
    }

    prune_unbound(&mut connections, now);
    let holds = |id: u64| connections.contains_key(&id);
    assert!(!holds(1), "expired login state is removed");
    assert!(holds(2), "live player state is retained");
    assert!(!holds(9 + MAX_UNBOUND_CONNECTIONS as u64));
    assert!(!holds(10 + MAX_UNBOUND_CONNECTIONS as u64));
    assert_eq!(
        connections.values().filter(|connection| !connection.bound).count(),
        MAX_UNBOUND_CONNECTIONS - 1
    );
}

#[test]
fn a_mapped_entity_has_a_type_on_either_side() {
    let mut tracker = EntityTracker::new();
    tracker.add_mapped(5, 12, 30);
    assert_eq!(tracker.entity_type(5), Some(12));
    assert_eq!(tracker.client_entity_type(5), Some(30));
    assert_eq!(tracker.entity_type(6), None);
}

#[test]
fn a_leaving_player_takes_the_connection_along() {
    let mut connections = Connections::new();
    let player = player_key(1, 2);
    bind_player(&mut connections, 9, version::V_1_20, player, 0);
    assert!(is_bound(&connections, 9));
    remove_player(&mut connections, player_key(3, 4));
    assert!(is_bound(&connections, 9));
    remove_player(&mut connections, player);
    assert!(!is_bound(&connections, 9));
    assert!(connections.entries.is_empty());
}

#[test]
fn a_player_key_mixes_both_halves() {
    assert_eq!(player_key(0, 5), 5);
    assert_eq!(player_key(1, 0), 0x1_0000_0000);
    assert_eq!(player_key(0x1_0000_0000, 0), 1);
}

#[test]
fn an_expired_connection_starts_anew() {
    let mut connections = Connections::new();
    with_connection(&mut connections, 1, version::V_1_20, 0).game_time = Some(3);
    let connection = with_connection(&mut connections, 1, version::V_1_20, PRE_PLAYER_CONNECTION_TTL);
    assert_eq!(connection.game_time, None);
}

#[test]
fn one_key_leaves_the_others_alone() {
    let mut connections = Connections::new();
    with_connection(&mut connections, 1, version::V_1_20, 0).game_time = Some(3);
    with_connection(&mut connections, 2, version::V_1_20, 1).game_time = Some(4);
    remove_connection(&mut connections, 1);
    assert_eq!(with_connection(&mut connections, 2, version::V_1_19, 2).game_time, Some(4));
    assert_eq!(connections.entries.len(), 1);
}

#[test]
fn the_limit_keeps_those_that_were_used_last() {
    let mut connections: HashMap<u64, UserConnection> = HashMap::new();
    for id in 0..MAX_UNBOUND_CONNECTIONS as u64 + 10 {
        let mut connection = UserConnection::new(id, version::V_1_20);
        connection.last_used = 1_000 - id % 7;
        connections.insert(id, connection);
    }
    prune_unbound(&mut connections, 1_000);
    assert_eq!(connections.len(), MAX_UNBOUND_CONNECTIONS - 1);
    let dropped = (0..MAX_UNBOUND_CONNECTIONS as u64 + 10).filter(|id| !connections.contains_key(id));
    assert!(dropped.into_iter().all(|id| id % 7 == 6), "the oldest go first");
}
