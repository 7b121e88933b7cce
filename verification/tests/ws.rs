use scoreboard_rs::state_trie::StateTrie;
use scoreboard_rs::ws::{
    answer_ping, close_connection, connect, handle_client_message, register_paths, updates_message,
    Connection, Connections, GameData, SocketMessageRecv, SocketMessageSend,
};

#[test]
fn new_connection_registered_for_nothing() {
    let (tx, _rx) = crossbeam::channel::unbounded();
    let c = Connection::new(tx);
    assert!(c.registered_for.is_empty());
}

#[test]
fn connect_stores_a_fresh_connection() {
    let mut connections: Connections = Connections::new();
    let (tx1, _rx1) = crossbeam::channel::unbounded();
    let (tx2, _rx2) = crossbeam::channel::unbounded();
    let a = connect(&mut connections, tx1);
    let b = connect(&mut connections, tx2);
    assert_ne!(a, b);
    assert_eq!(connections.len(), 2);
    assert!(connections[&a].registered_for.is_empty());
}

#[test]
fn registering_paths_holds_each_once() {
    let mut connections: Connections = Connections::new();
    let (tx, _rx) = crossbeam::channel::unbounded();
    let id = connect(&mut connections, tx);
    register_paths(&mut connections, id, vec!["A.B".to_string(), "C".to_string(), "A.B".to_string()]);
    register_paths(&mut connections, id, vec!["C".to_string(), "D".to_string()]);
    assert_eq!(connections[&id].registered_for, vec!["A.B", "C", "D"]);
}

#[test]
fn register_message_adds_paths_and_others_do_nothing() {
    let mut connections: Connections = Connections::new();
    let (tx, _rx) = crossbeam::channel::unbounded();
    let id = connect(&mut connections, tx);
    handle_client_message(&mut connections, id, SocketMessageRecv::Register { paths: vec!["X".to_string()] });
    handle_client_message(&mut connections, id, SocketMessageRecv::Ping {});
    handle_client_message(
        &mut connections,
        id,
        SocketMessageRecv::SetValue { key: "K".to_string(), value: "1".to_string(), flag: "".to_string() },
    );
    let data = GameData {
        Team1: 1,
        Team2: 2,
        Ruleset: 3,
        IntermissionClock: 0,
        Advance: false,
        TO1: 3,
        TO2: 3,
        OR1: 1,
        OR2: 1,
        Points1: 0,
        Points2: 0,
        Period: 1,
        Jam: 0,
        PeriodClock: 0,
    };
    handle_client_message(&mut connections, id, SocketMessageRecv::StartNewGame { data });
    assert_eq!(connections[&id].registered_for, vec!["X"]);
    assert_eq!(connections.len(), 1);
}

/// Hands the queued messages of client `id` to its sender, as the websocket task does.
fn deliver(connections: &mut Connections, id: u128) -> usize {
    let c = connections.get_mut(&id).unwrap();
    let mut sent = 0;
    for m in c.take_outbox() {
        if c.sender.send(m).is_ok() {
            sent += 1;
        }
    }
    sent
}

#[test]
fn ping_is_answered_with_pong() {
    let mut connections: Connections = Connections::new();
    let (tx, rx) = crossbeam::channel::unbounded();
    let (tx2, _rx2) = crossbeam::channel::unbounded();
    let id = connect(&mut connections, tx);
    let other = connect(&mut connections, tx2);
    answer_ping(&mut connections, id);
    assert_eq!(connections[&id].outbox.len(), 1);
    assert!(connections[&other].outbox.is_empty());
    assert_eq!(deliver(&mut connections, id), 1);
    assert!(matches!(rx.try_recv(), Ok(SocketMessageSend::Pong)));
    assert!(connections[&id].outbox.is_empty());
}

#[test]
fn pong_to_a_gone_client_is_not_delivered() {
    let mut connections: Connections = Connections::new();
    let (tx, rx) = crossbeam::channel::unbounded();
    let id = connect(&mut connections, tx);
    drop(rx);
    answer_ping(&mut connections, id);
    assert!(matches!(connections[&id].outbox[0], SocketMessageSend::Pong));
    assert_eq!(deliver(&mut connections, id), 0);
}

#[test]
fn closing_removes_only_that_connection() {
    let mut connections: Connections = Connections::new();
    let (tx1, _rx1) = crossbeam::channel::unbounded();
    let (tx2, _rx2) = crossbeam::channel::unbounded();
    let a = connect(&mut connections, tx1);
    let b = connect(&mut connections, tx2);
    close_connection(&mut connections, a);
    assert!(!connections.contains_key(&a));
    assert!(connections.contains_key(&b));
}

#[test]
fn updates_message_of_empty_changes_is_empty() {
    match updates_message(&StateTrie::empty()) {
        SocketMessageSend::Updates(v) => assert!(v.is_empty()),
        SocketMessageSend::Pong => panic!("an update message was expected"),
    }
}

#[test]
fn queue_changes_queues_an_update() {
    let (tx, _rx) = crossbeam::channel::unbounded();
    let mut c = Connection::new(tx);
    let mut changes = StateTrie::empty();
    changes.add("A".to_string(), Some("1".to_string()));
    c.queue_changes(&changes);
    let out = c.take_outbox();
    assert_eq!(out.len(), 1);
    match &out[0] {
        SocketMessageSend::Updates(v) => assert_eq!(*v, vec![("A".to_string(), "1".to_string())]),
        SocketMessageSend::Pong => panic!("an update message was expected"),
    }
    assert!(c.outbox.is_empty());
}

#[test]
fn update_recipients_are_every_client_once() {
    let mut connections: Connections = Connections::new();
    let (tx1, _rx1) = crossbeam::channel::unbounded();
    let (tx2, _rx2) = crossbeam::channel::unbounded();
    let a = connect(&mut connections, tx1);
    let b = connect(&mut connections, tx2);
    assert!(scoreboard_rs::ws::update_recipients(&connections, &StateTrie::empty()).is_empty());
    let mut changes = StateTrie::empty();
    changes.add("A".to_string(), Some("1".to_string()));
    let mut r = scoreboard_rs::ws::update_recipients(&connections, &changes);
    r.sort();
    let mut ids = vec![a, b];
    ids.sort();
    assert_eq!(r, ids);
}

#[test]
fn deleted_keys_reach_the_client_as_null() {
    let (tx, _rx) = crossbeam::channel::unbounded();
    let mut c = Connection::new(tx);
    let mut changes = StateTrie::empty();
    changes.add("A.B".to_string(), None);
    changes.add("A.C".to_string(), Some("2".to_string()));
    changes.add("A.Secret".to_string(), Some("\"x\"".to_string()));
    c.queue_changes(&changes);
    match &c.take_outbox()[0] {
        SocketMessageSend::Updates(v) => assert_eq!(
            *v,
            vec![("A.B".to_string(), "null".to_string()), ("A.C".to_string(), "2".to_string())]
        ),
        SocketMessageSend::Pong => panic!("an update message was expected"),
    }
}
