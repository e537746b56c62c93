//! Further tests: exact results, error variants, edge cases and the laws of
//! the library on concrete values.

use openrooms::{
    connection_key, ConnectionType, Door, Room, RoomAgent, RoomState, Session, SessionError,
    Topology, TopologyError, Warp,
};

fn line_topology() -> Topology {
    let mut topo = Topology::new();
    topo.add_room("a");
    topo.add_room("b");
    topo.add_room("c");
    topo.connect("a", "b", ConnectionType::Door).unwrap();
    topo.connect("b", "c", ConnectionType::Door).unwrap();
    topo
}

// ─── connection keys ────────────────────────────────────────────────────

#[test]
fn key_puts_smaller_name_first() {
    assert_eq!(connection_key("a", "b"), "a→b");
    assert_eq!(connection_key("b", "a"), "a→b");
    assert_eq!(connection_key("ab", "a"), "a→ab");
    assert_eq!(connection_key("lobby", "lobby"), "lobby→lobby");
}

#[test]
fn key_orders_by_bytes() {
    // 'Z' (0x5A) sorts before 'a' (0x61); 'é' (0xC3 0xA9) after 'z'.
    assert_eq!(connection_key("a", "Z"), "Z→a");
    assert_eq!(connection_key("é", "z"), "z→é");
}

#[test]
fn connected_either_way_round() {
    let mut topo = Topology::new();
    topo.add_room("x");
    topo.add_room("y");
    topo.connect("x", "y", ConnectionType::OneWay).unwrap();
    assert!(topo.are_connected("x", "y"));
    assert!(topo.are_connected("y", "x"));
}

// ─── topology errors ────────────────────────────────────────────────────

#[test]
fn connect_reports_missing_source_first() {
    let mut topo = Topology::new();
    match topo.connect("ghost", "phantom", ConnectionType::Door) {
        Err(TopologyError::RoomNotFound(n)) => assert_eq!(n, "ghost"),
        other => panic!("unexpected {:?}", other),
    }
    topo.add_room("ghost");
    match topo.connect("ghost", "phantom", ConnectionType::Door) {
        Err(TopologyError::RoomNotFound(n)) => assert_eq!(n, "phantom"),
        other => panic!("unexpected {:?}", other),
    }
    assert_eq!(topo.connection_count(), 0);
}

#[test]
fn connect_refuses_reverse_duplicate() {
    let mut topo = Topology::new();
    topo.add_room("a");
    topo.add_room("b");
    topo.connect("a", "b", ConnectionType::Door).unwrap();
    match topo.connect("b", "a", ConnectionType::Warp) {
        Err(TopologyError::AlreadyConnected(x, y)) => {
            assert_eq!(x, "b");
            assert_eq!(y, "a");
        }
        other => panic!("unexpected {:?}", other),
    }
    assert_eq!(topo.connection_count(), 1);
}

#[test]
fn disconnect_missing_connection() {
    let mut topo = Topology::new();
    topo.add_room("a");
    topo.add_room("b");
    match topo.disconnect("a", "b") {
        Err(TopologyError::ConnectionNotFound(x, y)) => {
            assert_eq!(x, "a");
            assert_eq!(y, "b");
        }
        other => panic!("unexpected {:?}", other),
    }
}

#[test]
fn disconnect_reverse_order() {
    let mut topo = line_topology();
    assert!(topo.disconnect("b", "a").is_ok());
    assert!(!topo.are_connected("a", "b"));
    assert!(topo.are_connected("b", "c"));
    assert_eq!(topo.connection_count(), 1);
}

#[test]
fn open_and_close_missing_connection() {
    let mut topo = line_topology();
    assert!(matches!(
        topo.open_connection("a", "c"),
        Err(TopologyError::ConnectionNotFound(_, _))
    ));
    assert!(matches!(
        topo.close_connection("c", "a"),
        Err(TopologyError::ConnectionNotFound(_, _))
    ));
}

#[test]
fn close_then_open_connection() {
    let mut topo = line_topology();
    topo.close_connection("b", "a").unwrap();
    let from_a = topo.connections_from("a");
    assert_eq!(from_a.len(), 1);
    assert!(!from_a[0].open);
    assert!(!from_a[0].can_traverse("a", "b"));
    topo.open_connection("a", "b").unwrap();
    assert!(topo.connections_from("a")[0].open);
    assert!(topo.are_connected("a", "b"));
}

// ─── rooms of a topology ────────────────────────────────────────────────

#[test]
fn add_room_twice_keeps_one() {
    let mut topo = Topology::new();
    topo.add_room("lobby");
    topo.add_room("lobby");
    assert_eq!(topo.room_count(), 1);
    assert_eq!(topo.rooms(), &["lobby".to_string()]);
}

#[test]
fn rooms_in_order_added() {
    let topo = line_topology();
    assert_eq!(
        topo.rooms(),
        &["a".to_string(), "b".to_string(), "c".to_string()]
    );
}

#[test]
fn remove_room_drops_its_connections() {
    let mut topo = line_topology();
    topo.remove_room("b");
    assert!(!topo.has_room("b"));
    assert_eq!(topo.room_count(), 2);
    assert_eq!(topo.connection_count(), 0);
    assert!(topo.neighbors("a").is_empty());
    assert!(topo.shortest_path("a", "c").is_none());
}

#[test]
fn remove_missing_room_changes_nothing() {
    let mut topo = line_topology();
    topo.remove_room("zzz");
    assert_eq!(topo.room_count(), 3);
    assert_eq!(topo.connection_count(), 2);
}

// ─── neighbours and connections ─────────────────────────────────────────

#[test]
fn one_way_neighbours() {
    let mut topo = Topology::new();
    topo.add_room("src");
    topo.add_room("dst");
    topo.connect("src", "dst", ConnectionType::OneWay).unwrap();
    assert_eq!(topo.neighbors("src"), vec!["dst"]);
    assert!(topo.neighbors("dst").is_empty());
    assert_eq!(topo.connections_from("src").len(), 1);
    assert!(topo.connections_from("dst").is_empty());
}

#[test]
fn two_way_neighbours() {
    let topo = line_topology();
    assert_eq!(topo.neighbors("b"), vec!["a", "c"]);
    assert_eq!(topo.neighbors("a"), vec!["b"]);
    assert_eq!(topo.connections_from("b").len(), 2);
}

// ─── shortest paths ─────────────────────────────────────────────────────

#[test]
fn shortest_path_takes_fewest_steps() {
    let mut topo = Topology::new();
    for r in ["a", "b", "c", "d", "e"] {
        topo.add_room(r);
    }
    // a long way round a-b-c-d-e and a short cut a-e
    topo.connect("a", "b", ConnectionType::Door).unwrap();
    topo.connect("b", "c", ConnectionType::Door).unwrap();
    topo.connect("c", "d", ConnectionType::Door).unwrap();
    topo.connect("d", "e", ConnectionType::Door).unwrap();
    topo.connect("a", "e", ConnectionType::Door).unwrap();
    assert_eq!(topo.shortest_path("a", "e").unwrap(), vec!["a", "e"]);
    assert_eq!(topo.shortest_path("a", "d").unwrap(), vec!["a", "e", "d"]);
    assert_eq!(topo.shortest_path("b", "e").unwrap(), vec!["b", "a", "e"]);
}

#[test]
fn shortest_path_is_a_walk() {
    let topo = line_topology();
    let path = topo.shortest_path("c", "a").unwrap();
    assert_eq!(path, vec!["c", "b", "a"]);
    for w in path.windows(2) {
        assert!(topo.neighbors(&w[0]).contains(&w[1].as_str()));
    }
}

#[test]
fn shortest_path_respects_one_way() {
    let mut topo = Topology::new();
    topo.add_room("up");
    topo.add_room("down");
    topo.connect("up", "down", ConnectionType::OneWay).unwrap();
    assert_eq!(topo.shortest_path("up", "down").unwrap(), vec!["up", "down"]);
    assert!(topo.shortest_path("down", "up").is_none());
}

#[test]
fn shortest_path_to_unknown_room() {
    let topo = line_topology();
    assert!(topo.shortest_path("a", "nowhere").is_none());
    assert!(topo.shortest_path("nowhere", "a").is_none());
    assert_eq!(
        topo.shortest_path("nowhere", "nowhere").unwrap(),
        vec!["nowhere".to_string()]
    );
}

// ─── doors ──────────────────────────────────────────────────────────────

#[test]
fn warp_is_two_way() {
    let warp: Warp = Door::new("here", "there", ConnectionType::Warp);
    assert!(warp.can_traverse("here", "there"));
    assert!(warp.can_traverse("there", "here"));
    assert!(!warp.can_traverse("here", "here"));
    assert!(!warp.can_traverse("there", "elsewhere"));
}

#[test]
fn closed_one_way_is_impassable() {
    let mut door = Door::new("a", "b", ConnectionType::OneWay);
    door.open = false;
    assert!(!door.can_traverse("a", "b"));
    assert!(!door.can_traverse("b", "a"));
}

#[test]
fn door_new_fields() {
    let door = Door::new("a", "b", ConnectionType::OneWay);
    assert_eq!(door.from, "a");
    assert_eq!(door.to, "b");
    assert_eq!(door.connection_type, ConnectionType::OneWay);
    assert!(door.open);
}

// ─── rooms ──────────────────────────────────────────────────────────────

#[test]
fn room_enter_then_leave_restores() {
    let mut room = Room::new("lobby");
    room.add_agent(RoomAgent::new("bob", "lobby"));
    assert!(room.add_agent(RoomAgent::new("alice", "lobby")));
    assert_eq!(room.agent_count(), 2);
    let alice = room.remove_agent("alice").unwrap();
    assert_eq!(alice.name, "alice");
    assert_eq!(room.agent_count(), 1);
    assert_eq!(room.agent_names(), vec!["bob"]);
}

#[test]
fn paused_room_still_takes_agents() {
    let mut room = Room::new("study");
    room.set_state(RoomState::Paused);
    assert!(room.add_agent(RoomAgent::new("alice", "study")));
    assert_eq!(room.state, RoomState::Paused);
}

#[test]
fn room_get_agent() {
    let mut room = Room::new("lobby");
    room.add_agent(RoomAgent::new("alice", "lobby"));
    assert_eq!(room.get_agent("alice").unwrap().name, "alice");
    assert!(room.get_agent("bob").is_none());
    room.get_agent_mut("alice").unwrap().deactivate();
    assert!(!room.get_agent("alice").unwrap().active);
    assert!(room.get_agent_mut("bob").is_none());
}

#[test]
fn room_tags_and_names_in_order() {
    let mut room = Room::new("lab").with_tag("science").with_tag("quiet");
    assert_eq!(room.tags, vec!["science".to_string(), "quiet".to_string()]);
    room.add_agent(RoomAgent::new("c", "lab"));
    room.add_agent(RoomAgent::new("a", "lab"));
    room.add_agent(RoomAgent::new("b", "lab"));
    assert_eq!(room.agent_names(), vec!["c", "a", "b"]);
}

#[test]
fn room_clone_is_equal() {
    let mut room = Room::new("lobby").with_tag("main");
    room.add_agent(RoomAgent::new("alice", "lobby"));
    let copy = room.clone();
    assert_eq!(copy.name, "lobby");
    assert_eq!(copy.agent_names(), vec!["alice"]);
    assert_eq!(copy.tags, vec!["main".to_string()]);
}

// ─── sessions ───────────────────────────────────────────────────────────

fn line_session() -> Session {
    Session::new(line_topology())
}

#[test]
fn session_has_one_room_per_topology_room() {
    let session = line_session();
    assert_eq!(session.rooms.len(), 3);
    assert_eq!(session.get_room("b").unwrap().name, "b");
    assert_eq!(session.get_room("b").unwrap().agent_count(), 0);
    assert!(session.get_room("zzz").is_none());
}

#[test]
fn admit_detached_agent_fails() {
    let mut session = line_session();
    match session.admit_agent(RoomAgent::detached("ghost")) {
        Err(SessionError::AgentNotInRoom(n)) => assert_eq!(n, "ghost"),
        other => panic!("unexpected {:?}", other),
    }
    assert_eq!(session.total_agents(), 0);
}

#[test]
fn admit_into_missing_room_names_it() {
    let mut session = line_session();
    match session.admit_agent(RoomAgent::new("alice", "nowhere")) {
        Err(SessionError::RoomNotFound(n)) => assert_eq!(n, "nowhere"),
        other => panic!("unexpected {:?}", other),
    }
}

#[test]
fn admit_into_closed_room_fails() {
    let mut session = line_session();
    session.get_room_mut("a").unwrap().set_state(RoomState::Closed);
    match session.admit_agent(RoomAgent::new("alice", "a")) {
        Err(SessionError::RoomClosed(n)) => assert_eq!(n, "a"),
        other => panic!("unexpected {:?}", other),
    }
    assert_eq!(session.total_agents(), 0);
}

#[test]
fn admit_agent_already_in_a_room_fails() {
    let mut t = Topology::new();
    t.add_room("lobby");
    t.add_room("workshop");
    let mut session = Session::new(t);
    session.admit_agent(RoomAgent::new("alice", "lobby")).unwrap();
    match session.admit_agent(RoomAgent::new("alice", "workshop")) {
        Err(SessionError::AgentAlreadyInRoom(n)) => assert_eq!(n, "alice"),
        other => panic!("unexpected {:?}", other),
    }
    assert_eq!(session.total_agents(), 1);
    assert_eq!(
        session.get_agent("alice").unwrap().current_room,
        Some("lobby".to_string())
    );
    assert_eq!(session.get_room("lobby").unwrap().agent_count(), 1);
    assert_eq!(session.get_room("workshop").unwrap().agent_count(), 0);
}

#[test]
fn admit_checks_the_room_before_the_agent() {
    let mut session = line_session();
    session.admit_agent(RoomAgent::new("alice", "a")).unwrap();
    match session.admit_agent(RoomAgent::new("alice", "nowhere")) {
        Err(SessionError::RoomNotFound(n)) => assert_eq!(n, "nowhere"),
        other => panic!("unexpected {:?}", other),
    }
    session.get_room_mut("c").unwrap().set_state(RoomState::Closed);
    match session.admit_agent(RoomAgent::new("alice", "c")) {
        Err(SessionError::RoomClosed(n)) => assert_eq!(n, "c"),
        other => panic!("unexpected {:?}", other),
    }
    match session.admit_agent(RoomAgent::new("alice", "b")) {
        Err(SessionError::AgentAlreadyInRoom(n)) => assert_eq!(n, "alice"),
        other => panic!("unexpected {:?}", other),
    }
    assert_eq!(session.get_room("a").unwrap().agent_names(), vec!["alice"]);
}

#[test]
fn admit_replaces_agent_in_no_room() {
    let mut session = line_session();
    session.admit_agent(RoomAgent::new("alice", "a")).unwrap();
    session.get_room_mut("a").unwrap().remove_agent("alice");
    session.agents[0].current_room = None;
    session.admit_agent(RoomAgent::new("alice", "b")).unwrap();
    assert_eq!(session.total_agents(), 1);
    assert_eq!(
        session.get_agent("alice").unwrap().current_room,
        Some("b".to_string())
    );
    assert_eq!(session.get_room("a").unwrap().agent_count(), 0);
    assert_eq!(session.get_room("b").unwrap().agent_names(), vec!["alice"]);
}

#[test]
fn expel_undoes_admission() {
    let mut session = line_session();
    session.admit_agent(RoomAgent::new("alice", "b")).unwrap();
    assert_eq!(session.get_room("b").unwrap().agent_names(), vec!["alice"]);
    let alice = session.expel("alice").unwrap();
    assert_eq!(alice.current_room, Some("b".to_string()));
    assert_eq!(session.total_agents(), 0);
    assert_eq!(session.get_room("b").unwrap().agent_count(), 0);
    match session.expel("alice") {
        Err(SessionError::AgentNotFound(n)) => assert_eq!(n, "alice"),
        other => panic!("unexpected {:?}", other),
    }
}

#[test]
fn move_changes_rooms() {
    let mut session = line_session();
    session.admit_agent(RoomAgent::new("alice", "a")).unwrap();
    session.move_agent("alice", "b", true).unwrap();
    assert_eq!(session.get_room("a").unwrap().agent_count(), 0);
    assert_eq!(session.get_room("b").unwrap().agent_names(), vec!["alice"]);
    assert_eq!(session.total_agents(), 1);
    session.move_agent("alice", "c", true).unwrap();
    assert_eq!(session.get_room("c").unwrap().agent_names(), vec!["alice"]);
}

#[test]
fn move_without_energy_changes_nothing() {
    let mut session = line_session();
    session.admit_agent(RoomAgent::new("alice", "a")).unwrap();
    assert!(matches!(
        session.move_agent("alice", "b", false),
        Err(SessionError::InsufficientEnergy)
    ));
    assert_eq!(session.get_room("a").unwrap().agent_names(), vec!["alice"]);
    assert_eq!(session.get_room("b").unwrap().agent_count(), 0);
    assert_eq!(
        session.get_agent("alice").unwrap().current_room,
        Some("a".to_string())
    );
}

#[test]
fn move_errors() {
    let mut session = line_session();
    match session.move_agent("nobody", "b", true) {
        Err(SessionError::AgentNotFound(n)) => assert_eq!(n, "nobody"),
        other => panic!("unexpected {:?}", other),
    }
    session.admit_agent(RoomAgent::new("alice", "a")).unwrap();
    match session.move_agent("alice", "c", true) {
        Err(SessionError::NotConnected(f, t)) => {
            assert_eq!(f, "a");
            assert_eq!(t, "c");
        }
        other => panic!("unexpected {:?}", other),
    }
    assert_eq!(session.get_room("a").unwrap().agent_count(), 1);
    session.agents[0].current_room = None;
    match session.move_agent("alice", "b", true) {
        Err(SessionError::AgentNotInRoom(n)) => assert_eq!(n, "alice"),
        other => panic!("unexpected {:?}", other),
    }
}

#[test]
fn move_into_closed_room_fails() {
    let mut t = Topology::new();
    t.add_room("a");
    t.add_room("b");
    t.connect("a", "b", ConnectionType::Door).unwrap();
    let mut session = Session::new(t);
    session.get_room_mut("b").unwrap().set_state(RoomState::Closed);
    session.admit_agent(RoomAgent::new("alice", "a")).unwrap();
    match session.move_agent("alice", "b", true) {
        Err(SessionError::RoomClosed(n)) => assert_eq!(n, "b"),
        other => panic!("unexpected {:?}", other),
    }
    assert_eq!(
        session.get_agent("alice").unwrap().current_room,
        Some("a".to_string())
    );
    assert_eq!(session.get_room("a").unwrap().agent_count(), 1);
    assert_eq!(session.get_room("b").unwrap().agent_count(), 0);
}

#[test]
fn move_backwards_along_one_way_fails() {
    let mut t = Topology::new();
    t.add_room("a");
    t.add_room("b");
    t.connect("b", "a", ConnectionType::OneWay).unwrap();
    let mut session = Session::new(t);
    session.admit_agent(RoomAgent::new("alice", "a")).unwrap();
    match session.move_agent("alice", "b", true) {
        Err(SessionError::NotConnected(f, g)) => {
            assert_eq!(f, "a");
            assert_eq!(g, "b");
        }
        other => panic!("unexpected {:?}", other),
    }
    assert_eq!(
        session.get_agent("alice").unwrap().current_room,
        Some("a".to_string())
    );
    assert_eq!(session.get_room("a").unwrap().agent_count(), 1);
    assert_eq!(session.get_room("b").unwrap().agent_count(), 0);
}

#[test]
fn move_forwards_along_one_way() {
    let mut t = Topology::new();
    t.add_room("a");
    t.add_room("b");
    t.connect("a", "b", ConnectionType::OneWay).unwrap();
    let mut session = Session::new(t);
    session.admit_agent(RoomAgent::new("alice", "a")).unwrap();
    session.move_agent("alice", "b", true).unwrap();
    assert_eq!(session.get_room("b").unwrap().agent_names(), vec!["alice"]);
    assert!(matches!(
        session.move_agent("alice", "a", true),
        Err(SessionError::NotConnected(_, _))
    ));
}

#[test]
fn move_through_closed_connection_fails() {
    let mut t = Topology::new();
    t.add_room("a");
    t.add_room("b");
    t.connect("a", "b", ConnectionType::Door).unwrap();
    t.close_connection("a", "b").unwrap();
    let mut session = Session::new(t);
    session.admit_agent(RoomAgent::new("alice", "a")).unwrap();
    match session.move_agent("alice", "b", true) {
        Err(SessionError::ConnectionClosed(f, g)) => {
            assert_eq!(f, "a");
            assert_eq!(g, "b");
        }
        other => panic!("unexpected {:?}", other),
    }
    assert_eq!(
        session.get_agent("alice").unwrap().current_room,
        Some("a".to_string())
    );
    assert_eq!(session.get_room("a").unwrap().agent_count(), 1);
    assert_eq!(session.get_room("b").unwrap().agent_count(), 0);
}

#[test]
fn move_into_paused_room() {
    let mut session = line_session();
    session.admit_agent(RoomAgent::new("alice", "a")).unwrap();
    session.get_room_mut("b").unwrap().set_state(RoomState::Paused);
    session.move_agent("alice", "b", true).unwrap();
    assert_eq!(session.get_room("a").unwrap().agent_count(), 0);
    assert_eq!(session.get_room("b").unwrap().agent_names(), vec!["alice"]);
}

#[test]
fn reachable_rooms_errors() {
    let mut session = line_session();
    assert!(matches!(
        session.reachable_rooms("nobody"),
        Err(SessionError::AgentNotFound(_))
    ));
    session.admit_agent(RoomAgent::new("alice", "b")).unwrap();
    assert_eq!(session.reachable_rooms("alice").unwrap(), vec!["a", "c"]);
    session.agents[0].current_room = None;
    assert!(matches!(
        session.reachable_rooms("alice"),
        Err(SessionError::AgentNotInRoom(_))
    ));
}

#[test]
fn reachable_rooms_skip_closed_and_backward_connections() {
    let mut t = line_topology();
    t.add_room("d");
    t.connect("d", "b", ConnectionType::OneWay).unwrap();
    t.close_connection("b", "c").unwrap();
    let mut session = Session::new(t);
    session.admit_agent(RoomAgent::new("alice", "b")).unwrap();
    assert_eq!(session.reachable_rooms("alice").unwrap(), vec!["a"]);
}

#[test]
fn add_room_replaces_existing() {
    let mut session = line_session();
    session.admit_agent(RoomAgent::new("alice", "a")).unwrap();
    session.admit_agent(RoomAgent::new("bob", "b")).unwrap();
    session.get_room_mut("a").unwrap().set_state(RoomState::Paused);
    session.add_room("a");
    let room = session.get_room("a").unwrap();
    assert_eq!(room.agent_count(), 0);
    assert_eq!(room.state, RoomState::Open);
    assert_eq!(session.topology.room_count(), 3);
    assert_eq!(session.rooms.len(), 3);
    assert_eq!(session.total_agents(), 2);
    assert_eq!(session.get_agent("alice").unwrap().current_room, None);
    assert_eq!(
        session.get_agent("bob").unwrap().current_room,
        Some("b".to_string())
    );
    assert!(matches!(
        session.move_agent("alice", "b", true),
        Err(SessionError::AgentNotInRoom(_))
    ));
    session.admit_agent(RoomAgent::new("alice", "a")).unwrap();
    assert_eq!(session.get_room("a").unwrap().agent_names(), vec!["alice"]);
}

#[test]
fn connect_rooms_wraps_topology_errors() {
    let mut session = line_session();
    session.add_room("d");
    assert!(session.connect_rooms("c", "d", ConnectionType::Warp).is_ok());
    assert!(session.topology.are_connected("d", "c"));
    match session.connect_rooms("d", "zzz", ConnectionType::Door) {
        Err(SessionError::Topology(TopologyError::RoomNotFound(n))) => assert_eq!(n, "zzz"),
        other => panic!("unexpected {:?}", other),
    }
    match session.connect_rooms("a", "b", ConnectionType::Door) {
        Err(SessionError::Topology(TopologyError::AlreadyConnected(_, _))) => {}
        other => panic!("unexpected {:?}", other),
    }
}

#[test]
fn session_error_from_topology_error() {
    let e: SessionError = TopologyError::CircularConnection.into();
    assert!(matches!(
        e,
        SessionError::Topology(TopologyError::CircularConnection)
    ));
}

#[test]
fn topology_clone_and_default() {
    let topo = line_topology();
    let copy = topo.clone();
    assert_eq!(copy.room_count(), 3);
    assert!(copy.are_connected("a", "b"));
    let empty = Topology::default();
    assert_eq!(empty.room_count(), 0);
    assert_eq!(empty.connection_count(), 0);
}

#[test]
fn disconnect_undoes_connect() {
    let mut topo = line_topology();
    topo.connect("a", "c", ConnectionType::OneWay).unwrap();
    assert_eq!(topo.neighbors("a"), vec!["b", "c"]);
    topo.disconnect("c", "a").unwrap();
    assert_eq!(topo.connection_count(), 2);
    assert_eq!(topo.neighbors("a"), vec!["b"]);
    assert_eq!(topo.neighbors("c"), vec!["b"]);
}

#[test]
fn open_undoes_close() {
    let mut topo = line_topology();
    topo.close_connection("b", "c").unwrap();
    assert!(!topo.connections_from("c")[0].open);
    topo.open_connection("c", "b").unwrap();
    assert!(topo.connections_from("c")[0].open);
    assert!(topo.connections_from("c")[0].can_traverse("c", "b"));
}
