use std::collections::HashMap;

use scoreboard_rs::manager::JSONStateManager;
use scoreboard_rs::path_syntax::{split_path, split_state_key};
use scoreboard_rs::path_trie::PathTrie;
use scoreboard_rs::snapshotter::{Game, JSONStateSnapshotter};
use scoreboard_rs::state_trie::StateTrie;
use scoreboard_rs::manager::JSONStateListener;
use scoreboard_rs::ws::{connect, Connections, SocketMessageSend};

#[test]
fn empty_state_trie_holds_nothing() {
    let t = StateTrie::empty();
    assert_eq!(t.get("ScoreBoard.Version".to_string()), None);
    assert_eq!(t.size(), 0);
    assert!(t.is_empty());
    assert!(t.get_all(false).is_empty());
    assert!(t.get_all(true).is_empty());
}

#[test]
fn state_trie_new_keeps_no_value() {
    let mut content = HashMap::new();
    content.insert("a".to_string(), "1".to_string());
    let t = StateTrie::new(content);
    assert_eq!(t.get("a".to_string()), None);
    assert_eq!(t.size(), 0);
}

#[test]
fn added_keys_read_their_values() {
    let mut t = StateTrie::empty();
    t.add("ScoreBoard.Version(release)".to_string(), Some("\"5.0\"".to_string()));
    t.add_all(vec![
        ("ScoreBoard.Clock".to_string(), Some("1".to_string())),
        ("ScoreBoard.Version(build)".to_string(), Some("7".to_string())),
    ]);
    assert_eq!(t.get("ScoreBoard.Version(release)".to_string()), Some("\"5.0\"".to_string()));
    assert_eq!(t.get("ScoreBoard.Clock".to_string()), Some("1".to_string()));
    assert_eq!(t.get("ScoreBoard.Version(build)".to_string()), Some("7".to_string()));
    assert_eq!(t.get("ScoreBoard.Version".to_string()), None);
    assert_eq!(t.size(), 3);
    assert!(!t.is_empty());
    let mut all = t.get_all(false);
    all.sort();
    assert_eq!(
        all,
        vec![
            ("ScoreBoard.Clock".to_string(), "1".to_string()),
            ("ScoreBoard.Version(build)".to_string(), "7".to_string()),
            ("ScoreBoard.Version(release)".to_string(), "\"5.0\"".to_string()),
        ]
    );
}

#[test]
fn adding_again_replaces_the_value_and_none_clears_below() {
    let mut t = StateTrie::empty();
    t.add("A.B".to_string(), Some("1".to_string()));
    t.add("A.B".to_string(), Some("2".to_string()));
    assert_eq!(t.get("A.B".to_string()), Some("2".to_string()));
    assert_eq!(t.size(), 1);
    t.add("A.B.C".to_string(), Some("3".to_string()));
    t.add("A.B".to_string(), None);
    assert_eq!(t.get("A.B".to_string()), None);
    assert_eq!(t.get("A.B.C".to_string()), None);
}

#[test]
fn remove_clears_a_key() {
    let mut t = StateTrie::empty();
    t.add("A.B".to_string(), Some("1".to_string()));
    t.add("A.C".to_string(), Some("2".to_string()));
    t.remove("A.B".to_string());
    assert_eq!(t.get("A.B".to_string()), None);
    assert_eq!(t.get("A.C".to_string()), Some("2".to_string()));
    assert_eq!(t.size(), 1);
}

#[test]
fn secrets_are_left_out_when_filtered() {
    let mut t = StateTrie::empty();
    t.add("A.Secret".to_string(), Some("\"x\"".to_string()));
    t.add("A.Open".to_string(), Some("\"y\"".to_string()));
    assert_eq!(t.get_all(true), vec![("A.Open".to_string(), "\"y\"".to_string())]);
    assert_eq!(t.get_all(false).len(), 2);
}

#[test]
fn merge_applies_sets_and_deletions() {
    let mut state = StateTrie::empty();
    state.add("A.B".to_string(), Some("1".to_string()));
    state.add("A.C".to_string(), Some("2".to_string()));
    let mut change = StateTrie::empty();
    change.add("A.B".to_string(), None);
    change.add("A.D".to_string(), Some("4".to_string()));
    change.add("E".to_string(), Some("5".to_string()));
    let m = state.merge_cloned(&change);
    assert_eq!(m.get("A.B".to_string()), None);
    assert_eq!(m.get("A.C".to_string()), Some("2".to_string()));
    assert_eq!(m.get("A.D".to_string()), Some("4".to_string()));
    assert_eq!(m.get("E".to_string()), Some("5".to_string()));
    let mut changed = StateTrie::empty();
    changed.add("A.C".to_string(), Some("3".to_string()));
    assert_eq!(m.merge_cloned(&changed).get("A.C".to_string()), Some("3".to_string()));
}

#[test]
fn clean_clone_keeps_values_and_drops_nothing_else() {
    let mut t = StateTrie::empty();
    t.add("A.B".to_string(), Some("1".to_string()));
    let c = t.clean_clone().expect("a trie holding a value cleans to something");
    assert_eq!(c.get("A.B".to_string()), Some("1".to_string()));
    let mut e = StateTrie::empty();
    assert!(e.clean_clone().is_none());
}

#[test]
fn remove_on_empty_trie_is_harmless() {
    let mut t = StateTrie::empty();
    t.remove("A.B".to_string());
    assert_eq!(t.get("A.B".to_string()), None);
    assert_eq!(t.size(), 0);
}

#[test]
fn merging_empty_tries_gives_an_empty_trie() {
    let a = StateTrie::empty();
    let b = StateTrie::default();
    let m = a.merge_cloned(&b);
    assert_eq!(m.size(), 0);
    assert!(m.get_all(false).is_empty());
    let r = a.merge_inner_cloned(&b, true);
    assert_eq!(r.size(), 0);
}

#[test]
fn copies_keep_or_drop_the_values() {
    let mut t = StateTrie::empty();
    t.add("A.B".to_string(), Some("1".to_string()));
    assert_eq!(t.copy().get("A.B".to_string()), Some("1".to_string()));
    assert_eq!(t.clone_inner(false).get("A.B".to_string()), Some("1".to_string()));
    assert_eq!(t.clone_nulled().get("A.B".to_string()), None);
    assert_eq!(t.clone_nulled().size(), 1);
}

#[test]
fn filtering_an_empty_trie_gives_nothing() {
    let mut filter = PathTrie::empty();
    filter.add("ScoreBoard");
    assert!(StateTrie::empty().filter(filter, true).is_empty());
}

#[test]
fn fetch_all_keeps_earlier_results() {
    let t = StateTrie::empty();
    let mut results = vec![("x".to_string(), "1".to_string())];
    t.fetch_all(&mut results, "p".to_string(), false);
    assert_eq!(results, vec![("x".to_string(), "1".to_string())]);
}

#[test]
fn pattern_tokens_drop_the_delimiters() {
    let tokens = split_path("ScoreBoard.Game(g1).Team(*)");
    assert_eq!(tokens, vec!["ScoreBoard", "Game", "g1)", "Team", "*)"]);
    assert_eq!(split_path("ScoreBoard"), vec!["ScoreBoard"]);
    assert_eq!(split_path(""), vec![""]);
}

#[test]
fn state_keys_are_cut_before_the_delimiters() {
    let keys = split_state_key("ScoreBoard.Game(g1).Team(1)");
    assert_eq!(keys, vec!["ScoreBoard", ".Game", "(g1)", ".Team", "(1)"]);
    assert_eq!(keys.concat(), "ScoreBoard.Game(g1).Team(1)");
    assert_eq!(split_state_key(".A"), vec![".A"]);
    assert_eq!(split_state_key(""), vec![""]);
}

#[test]
fn update_state_sets_the_key_and_tells_every_connection() {
    let mut manager = JSONStateManager::new();
    let mut connections: Connections = Connections::new();
    let (tx, rx) = crossbeam::channel::unbounded();
    let id = connect(&mut connections, tx);
    let sent = manager.update_state("foo".to_string(), "\"bar\"".to_string(), &mut connections);
    assert_eq!(sent, vec![id]);
    deliver(&mut connections, id);
    assert_eq!(manager.state.get("foo".to_string()), Some("\"bar\"".to_string()));
    match rx.try_recv() {
        Ok(SocketMessageSend::Updates(v)) => {
            assert_eq!(v, vec![("foo".to_string(), "\"bar\"".to_string())])
        }
        _ => panic!("an update message was expected"),
    }
}

#[test]
fn empty_updates_reach_no_connection() {
    let mut manager = JSONStateManager::new();
    let mut connections: Connections = Connections::new();
    let (tx1, rx1) = crossbeam::channel::unbounded();
    let (tx2, rx2) = crossbeam::channel::unbounded();
    connect(&mut connections, tx1);
    connect(&mut connections, tx2);
    let ids0: Vec<u128> = connections.keys().cloned().collect();
    let sent = manager.update_state_inner(StateTrie::empty(), &mut connections);
    assert!(sent.is_empty());
    for id in &ids0 {
        assert!(connections[id].outbox.is_empty());
    }
    assert!(rx1.try_recv().is_err());
    assert!(rx2.try_recv().is_err());
    let mut updates = StateTrie::empty();
    updates.add("A".to_string(), Some("1".to_string()));
    let mut sent = manager.update_state_inner(updates, &mut connections);
    sent.sort();
    let mut ids: Vec<u128> = connections.keys().cloned().collect();
    ids.sort();
    assert_eq!(sent, ids);
    for id in &ids {
        assert_eq!(connections[id].outbox.len(), 1);
        deliver(&mut connections, *id);
    }
    assert!(matches!(rx1.try_recv(), Ok(SocketMessageSend::Updates(_))));
    assert!(matches!(rx2.try_recv(), Ok(SocketMessageSend::Updates(_))));
    assert_eq!(manager.state.size(), 1);
}

#[test]
fn listener_gets_update_on_register() {
    let mut manager = JSONStateManager::new();
    let mut connections: Connections = Connections::new();
    let (tx, rx) = crossbeam::channel::unbounded();
    let id = connect(&mut connections, tx);

    manager.update_state("foo".to_string(), "\"bar\"".to_string(), &mut connections);
    let connection = connections.get_mut(&id).unwrap();
    assert!(manager.register(connection));
    deliver(&mut connections, id);

    match rx.try_recv() {
        Ok(msg) => {
            assert!(matches!(msg, SocketMessageSend::Updates(..)));
            match msg {
                SocketMessageSend::Updates(v) => {
                    let foo = v.iter().find(|(k, _)| k == "foo").map(|(_, v)| v.clone());
                    assert_eq!(foo, Some("\"bar\"".to_string()));
                }
                _ => panic!(),
            }
        }
        Err(_) => panic!("Timeout error waiting to receive socket message"),
    }
    match rx.try_recv() {
        Ok(SocketMessageSend::Updates(v)) => {
            assert_eq!(v, vec![("foo".to_string(), "\"bar\"".to_string())])
        }
        _ => panic!("the state was expected on register"),
    }
}

/// Hands the queued messages of client `id` to its sender, as the websocket task does.
fn deliver(connections: &mut Connections, id: u128) {
    let c = connections.get_mut(&id).unwrap();
    for m in c.take_outbox() {
        c.sender.send(m).unwrap();
    }
}

fn snapshotter() -> JSONStateSnapshotter {
    JSONStateSnapshotter::new(
        JSONStateManager::new(),
        Game { id: "g1".to_string(), filename: "game-1".to_string() },
        true,
        "/srv/scoreboard".to_string(),
    )
}

#[test]
fn snapshotter_names_its_files_after_the_game() {
    let mut s = snapshotter();
    assert_eq!(s.snapshot_file_name(), "game-1.json");
    assert_eq!(s.previous_file_name(), "game-1_prev.json");
    assert_eq!(s.directory(), "/srv/scoreboard");
    assert!(s.use_metrics());
    s.set_filename("renamed".to_string());
    assert_eq!(s.snapshot_file_name(), "renamed.json");
    assert_eq!(s.previous_file_name(), "renamed_prev.json");
}

#[test]
fn snapshotter_writes_once_after_being_asked() {
    let mut s = snapshotter();
    let state = StateTrie::empty();
    assert!(!s.send_updates(&state, &state));
    s.write_on_next_update();
    assert!(s.send_updates(&state, &state));
    assert!(!s.send_updates(&state, &state));
    assert!(s.snapshot_content().is_empty());
}
