use scoreboard_rs::path_trie::{intersect, merge, PathTrie};
use scoreboard_rs::state_trie::StateTrie;

#[test]
fn simple_covers() {
    let mut pt = PathTrie::default();
    pt.add("ScoreBoard.Period");

    assert!(pt.covers("ScoreBoard.Period"));
    assert!(pt.covers("ScoreBoard.Period(1)"));
    assert!(pt.covers("ScoreBoard.Period.Jam"));

    assert!(!pt.covers("ScoreBoard.PeriodFoo"));
    assert!(!pt.covers("ScoreBoard.Perioc"));
    assert!(!pt.covers("ScoreBoard.Perioe"));
    assert!(!pt.covers("ScoreBoard(1).Perioe"));
    assert!(!pt.covers("ScoreBoard.Perio"));
    assert!(!pt.covers("Scoreboard.Period"));
}

#[test]
fn path_trie_simple_covers() {
    let mut pt = PathTrie::default();

    pt.add("ScoreBoard.Period");

    assert!(pt.covers("ScoreBoard.Period"));
    assert!(pt.covers("ScoreBoard.Period(1)"));
    assert!(pt.covers("ScoreBoard.Period.Jam"));

    assert!(!pt.covers("ScoreBoard.PeriodFoo"));
    assert!(!pt.covers("ScoreBoard.Perioc"));
    assert!(!pt.covers("ScoreBoard.Perioe"));
    assert!(!pt.covers("ScoreBoard(1).Perioe"));
    assert!(!pt.covers("ScoreBoard.Perio"));
    assert!(!pt.covers("Scoreboard.Period"));
}

#[test]
fn stars_are_valid_names() {
    let mut pt = PathTrie::default();
    pt.add("ScoreBoard.Period*");

    assert!(pt.covers("ScoreBoard.Period*"));

    assert!(!pt.covers("ScoreBoard.Period*a"));
    assert!(!pt.covers("ScoreBoard.Period"));
    assert!(!pt.covers("ScoreBoard.Period("));
    assert!(!pt.covers("ScoreBoard.Period(1).Jam(2).Foo(2).Bar"));
}

#[test]
fn path_trie_stars_are_valid_names() {
    let mut pt = PathTrie::default();
    pt.add("ScoreBoard.Period*");

    assert!(pt.covers("ScoreBoard.Period*"));

    assert!(!pt.covers("ScoreBoard.Period*a"));
    assert!(!pt.covers("ScoreBoard.Period"));
    assert!(!pt.covers("ScoreBoard.Period("));
    assert!(!pt.covers("ScoreBoard.Period(1).Jam(2).Foo(2).Bar"));
}

#[test]
fn partial_and_fully_specified() {
    let mut pt = PathTrie::default();
    pt.add("ScoreBoard.Period(1).Jam(1).StarPass");
    pt.add("ScoreBoard.Period");

    assert!(pt.covers("ScoreBoard.Period"));
    assert!(pt.covers("ScoreBoard.Period(1)"));
    assert!(pt.covers("ScoreBoard.Period(1).Jam(1).StarPass"));
}

#[test]
fn covers1() {
    let mut pt = PathTrie::default();
    pt.add("ScoreBoard.Period(1).Jam(1).StarPass");
    pt.add("ScoreBoard.Period");

    assert!(pt.covers("ScoreBoard.Period"));
    assert!(pt.covers("ScoreBoard.Period(1)"));
    assert!(pt.covers("ScoreBoard.Period(1).Jam(1).StarPass"));
}

#[test]
fn star_in_brackets() {
    let mut pt = PathTrie::default();
    pt.add("ScoreBoard.Period(1).Foo");
    pt.add("ScoreBoard.Period(*).Bar");

    assert!(pt.covers("ScoreBoard.Period(1).Foo"));
    assert!(pt.covers("ScoreBoard.Period(1).Bar"));
    assert!(pt.covers("ScoreBoard.Period(2).Bar"));

    assert!(!pt.covers("ScoreBoard.Period(2).Foo"));
}

#[test]
fn covers2() {
    let mut pt = PathTrie::default();
    pt.add("ScoreBoard.Period(1).Foo");
    pt.add("ScoreBoard.Period(*).Bar");

    assert!(pt.covers("ScoreBoard.Period(1).Foo"));
    assert!(pt.covers("ScoreBoard.Period(1).Bar"));
    assert!(pt.covers("ScoreBoard.Period(2).Bar"));

    assert!(!pt.covers("ScoreBoard.Period(2).Foo"));
}

#[test]
fn long_chain_does_not_allow_partial_spec() {
    let mut pt = PathTrie::default();
    pt.add("ScoreBoard.Period(*).Jam(1).Foo(*).Bar");

    assert!(pt.covers("ScoreBoard.Period(1).Jam(1).Foo(2).Bar"));
    assert!(pt.covers("ScoreBoard.Period(1).Jam(1).Foo(2).Bar.Baz"));
    assert!(pt.covers("ScoreBoard.Period(1).Jam(1).Foo(2).Bar(zzz)"));

    assert!(!pt.covers("ScoreBoard.Period"));
    assert!(!pt.covers("ScoreBoard.Period("));
    assert!(!pt.covers("ScoreBoard.Period(1)"));
    assert!(!pt.covers("ScoreBoard.Period(1).Jam(2).Foo(2).Bar"));
    assert!(!pt.covers("ScoreBoard.Period(1).Jam(1).Foo(2)"));
    assert!(!pt.covers("ScoreBoard.Period(1).Jam(1).TeamJam(1).Foo(2)"));
}

#[test]
fn covers3() {
    let mut pt = PathTrie::default();
    pt.add("ScoreBoard.Period(*).Jam(1).Foo(*).Bar");

    assert!(pt.covers("ScoreBoard.Period(1).Jam(1).Foo(2).Bar"));
    assert!(pt.covers("ScoreBoard.Period(1).Jam(1).Foo(2).Bar.Baz"));
    assert!(pt.covers("ScoreBoard.Period(1).Jam(1).Foo(2).Bar(zzz)"));

    assert!(!pt.covers("ScoreBoard.Period"));
    assert!(!pt.covers("ScoreBoard.Period("));
    assert!(!pt.covers("ScoreBoard.Period(1)"));
    assert!(!pt.covers("ScoreBoard.Period(1).Jam(2).Foo(2).Bar"));
    assert!(!pt.covers("ScoreBoard.Period(1).Jam(1).Foo(2)"));
    assert!(!pt.covers("ScoreBoard.Period(1).Jam(1).TeamJam(1).Foo(2)"));
}

#[test]
fn paths_in_parenthesis_follow_the_rules() {
    let mut pt = PathTrie::default();
    pt.add("ScoreBoard.Rulesets.Rule(Period.Duration)");
    pt.add("ScoreBoard.Rulesets.Rule(Jam.*)");
    pt.add("ScoreBoard.Rulesets.Rule(Intermission*)");

    assert!(pt.covers("ScoreBoard.Rulesets.Rule(Period.Duration)"));
    assert!(pt.covers("ScoreBoard.Rulesets.Rule(Jam.Foo)"));
    assert!(pt.covers("ScoreBoard.Rulesets.Rule(Jam.Foo.Bar)"));

    assert!(!pt.covers("ScoreBoard.Rulesets.Rule(Period.Direction)"));
    assert!(!pt.covers("ScoreBoard.Rulesets.Rule(Jam)"));
    assert!(!pt.covers("ScoreBoard.Rulesets.Rule(Intermission.Direction)"));

    pt.add("ScoreBoard.Rulesets.Rule(*)");

    assert!(pt.covers("ScoreBoard.Rulesets.Rule(Period.Direction)"));
    assert!(pt.covers("ScoreBoard.Rulesets.Rule(Jam)"));
    assert!(pt.covers("ScoreBoard.Rulesets.Rule(Intermission.Direction)"));
}

#[test]
fn covers5() {
    let mut pt = PathTrie::default();
    pt.add("ScoreBoard.Rulesets.Rule(Period.Duration)");
    pt.add("ScoreBoard.Rulesets.Rule(Jam.*)");
    pt.add("ScoreBoard.Rulesets.Rule(Intermission*)");

    assert!(pt.covers("ScoreBoard.Rulesets.Rule(Period.Duration)"));
    assert!(pt.covers("ScoreBoard.Rulesets.Rule(Jam.Foo)"));
    assert!(pt.covers("ScoreBoard.Rulesets.Rule(Jam.Foo.Bar)"));

    assert!(!pt.covers("ScoreBoard.Rulesets.Rule(Period.Direction)"));
    assert!(!pt.covers("ScoreBoard.Rulesets.Rule(Jam)"));
    assert!(!pt.covers("ScoreBoard.Rulesets.Rule(Intermission.Direction)"));

    pt.add("ScoreBoard.Rulesets.Rule(*)");

    assert!(pt.covers("ScoreBoard.Rulesets.Rule(Period.Direction)"));
    assert!(pt.covers("ScoreBoard.Rulesets.Rule(Jam)"));
    assert!(pt.covers("ScoreBoard.Rulesets.Rule(Intermission.Direction)"));
}

#[test]
fn simple_merge() {
    let mut pt1 = PathTrie::default();
    pt1.add("Aaa.Bbb(Ccc).Ddd");
    let mut pt2 = PathTrie::default();
    pt2.add("Aaa.Bbb(Fff)");

    // We expect the merge to behave exactly like appliying the entries to a new PathTrie.
    let mut expected_result = PathTrie::default();
    expected_result.add("Aaa.Bbb(Ccc).Ddd");
    expected_result.add("Aaa.Bbb(Fff)");

    let res = merge(pt1, pt2);

    assert!(res == expected_result);
}

#[test]
fn simple_intersect() {
    let mut path_trie = PathTrie::default();
    path_trie.add("Aaa.Bbb(*).Ddd");
    let mut state_trie = StateTrie::default();
    state_trie.add("Aaa.Bbb(1).Ccc".to_string(), Some("Nope".into()));
    state_trie.add("Aaa.Bbb(2).Ddd".to_string(), Some("Yeah".into()));

    let intersection = intersect(&path_trie, &state_trie, false);
    assert_eq!(intersection, vec![("Aaa.Bbb(2).Ddd".to_string(), "Yeah".to_string())]);
}

#[test]
fn empty_filter_intersects_nothing() {
    let path_trie = PathTrie::empty();
    let state_trie = StateTrie::empty();
    assert!(intersect(&path_trie, &state_trie, true).is_empty());
    assert!(!path_trie.covers("ScoreBoard"));
}

#[test]
fn add_all_registers_every_pattern() {
    let mut pt = PathTrie::empty();
    pt.add_all(&["ScoreBoard.Version".to_string(), "ScoreBoard.Game(g1)".to_string()]);
    assert!(pt.covers("ScoreBoard.Version"));
    assert!(pt.covers("ScoreBoard.Version(release)"));
    assert!(pt.covers("ScoreBoard.Game(g1)"));
    assert!(pt.covers("ScoreBoard.Game(g1).Team(1)"));
    assert!(!pt.covers("ScoreBoard.Game(g2)"));
    assert!(!pt.covers("ScoreBoard"));
}

#[test]
fn equal_tries_hold_the_same_patterns() {
    let mut a = PathTrie::empty();
    a.add("A.B");
    a.add("C(*)");
    let mut b = PathTrie::empty();
    b.add("C(*)");
    b.add("A.B");
    assert!(a == b);
    b.add("D");
    assert!(!(a == b));
}

#[test]
fn star_pattern_covers_any_index() {
    let mut pt = PathTrie::default();
    pt.add("ScoreBoard.Period(*).Jam");

    assert!(pt.covers("ScoreBoard.Period(1).Jam"));
    assert!(!pt.covers("ScoreBoard.Period"));
    assert!(!pt.covers("ScoreBoard.Period(2).Baz"));
}

#[test]
fn registered_path_is_covered_beside_a_star_branch() {
    let mut pt = PathTrie::empty();
    pt.add("X(*).Y(*).Z");
    pt.add("X(a).Y(b)");
    assert!(pt.covers("X(a).Y(b)"));
    assert!(pt.covers("X(a).Y(b).W"));
    assert!(!pt.covers("X(c).Y(d)"));
    let mut other = PathTrie::default();
    other.add("ScoreBoard.Period(*).Jam(*).Number");
    other.add("ScoreBoard.Period(1).Jam(2)");
    assert!(other.covers("ScoreBoard.Period(1).Jam(2)"));
}

#[test]
fn adding_a_pattern_keeps_what_was_covered() {
    let mut pt = PathTrie::empty();
    pt.add("A(1).B(2)");
    assert!(pt.covers("A(1).B(2)"));
    pt.add("A(*).B(*).C");
    assert!(pt.covers("A(1).B(2)"));
    assert!(pt.covers("A(5).B(6).C"));
}

#[test]
fn single_pattern_covers_its_own_path() {
    for entry in ["A", "A.B", "A(*)", "ScoreBoard.Game(g1).Team(*).Name", "A(1).B(2)"] {
        let mut pt = PathTrie::empty();
        pt.add(entry);
        assert!(pt.covers(entry), "{entry}");
    }
    // An empty last segment is never covered.
    let mut pt = PathTrie::empty();
    pt.add("A.");
    assert!(!pt.covers("A."));
}

#[test]
fn a_cloned_trie_covers_the_same_paths() {
    let mut pt = PathTrie::empty();
    pt.add("ScoreBoard.Period(*).Jam");
    let copy = pt.clone();
    assert!(copy == pt);
    assert!(copy.covers("ScoreBoard.Period(3).Jam"));
    assert!(!copy.covers("ScoreBoard.Period"));
    assert!(format!("{:?}", copy).contains("Jam"));
}
