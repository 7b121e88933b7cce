use std::sync::Arc;

use scoreboard_rs::args::{urls, Args};
use scoreboard_rs::base_path::BasePath;
use scoreboard_rs::event::{
    same_event, Property, ScoreBoardEvent, ScoreBoardEventProvider, ScoreBoardListener, Source, SourceEnum,
    SourceInstance, ValueWithId,
};

#[test]
fn base_path_reads_the_working_directory_until_set() {
    let mut base = BasePath::new();
    assert_eq!(base.get("/work".to_string()), "/work");
    assert_eq!(base.set("/data".to_string()), Ok(()));
    assert_eq!(base.get("/work".to_string()), "/data");
}

#[test]
fn base_path_is_set_once() {
    let mut base = BasePath::new();
    assert_eq!(base.set("/first".to_string()), Ok(()));
    assert_eq!(base.set("/second".to_string()), Err("/second".to_string()));
    assert_eq!(base.get("/work".to_string()), "/first");
}

#[test]
fn default_args() {
    let a = Args::default();
    assert!(!a.gui);
    assert_eq!(a.port, 8000);
    assert_eq!(a.host, "0.0.0.0");
    assert_eq!(a.import, None);
    assert!(!a.metrics);
    assert_eq!(a.autosave_frequency_s, None);
}

#[test]
fn urls_lists_the_addresses() {
    assert_eq!(urls(), "0.0.0.0:8000\nlocalhost:8000");
}

#[test]
fn source_kinds() {
    assert!(!SourceEnum::WS.is_internal());
    assert!(!SourceEnum::WS.is_file());
    assert!(!SourceEnum::AutoSave.is_internal());
    assert!(SourceEnum::AutoSave.is_file());
    assert!(!SourceEnum::JSON.is_internal());
    assert!(SourceEnum::JSON.is_file());
    assert!(SourceEnum::Copy.is_internal());
    assert!(!SourceEnum::Copy.is_file());
    assert!(!SourceEnum::AnyFile.is_internal());
    assert!(SourceEnum::AnyFile.is_file());
    assert!(SourceEnum::NonWS.is_internal());
    assert!(SourceEnum::NonWS.is_file());
    assert!(SourceEnum::AnyInternal.is_internal());
    assert!(!SourceEnum::AnyInternal.is_file());
    let s = SourceInstance(true, false);
    assert!(s.is_internal());
    assert!(!s.is_file());
}

struct Child(String);

impl ValueWithId for Child {
    fn get_id(&self) -> String {
        self.0.clone()
    }
    fn get_value(&self) -> String {
        format!("\"{}\"", self.0)
    }
}

#[test]
fn properties_compare_by_kind_and_name() {
    let a: Property<u32, Child> = Property::Value { json_name: "Score".to_string(), value: 1 };
    let b: Property<u32, Child> = Property::Value { json_name: "Score".to_string(), value: 7 };
    let c: Property<u32, Child> = Property::Command { json_name: "Score".to_string(), value: true };
    let d: Property<u32, Child> =
        Property::Child { json_name: "Team".to_string(), value: Arc::new(Child("t1".to_string())) };
    assert!(a == b);
    assert!(a != c);
    assert!(a != d);
    assert_eq!(d.get_json_name(), "Team");
    assert_eq!(c.to_string(), "Score");
    match d.clone() {
        Property::Child { json_name, value } => {
            assert_eq!(json_name, "Team");
            assert_eq!(value.get_id(), "t1");
        }
        _ => panic!("a child property was expected"),
    }
}

struct Team {
    name: String,
}

impl ValueWithId for Team {
    fn get_id(&self) -> String {
        format!("id-{}", self.name)
    }
    fn get_value(&self) -> String {
        self.get_id()
    }
}

struct Printer;

impl scoreboard_rs::event::EventListener for Printer {}

impl ScoreBoardListener<u32> for Printer {
    fn score_board_change<P, C>(&self, _event: ScoreBoardEvent<u32, P, C>) {}
}

impl ScoreBoardEventProvider<u32> for Team {
    type Parent = Team;
    fn get_provider_name(&self) -> String {
        self.name.clone()
    }
    fn get_provider_class(&self) -> String {
        "Team".to_string()
    }
    fn get_provider_id(&self) -> String {
        self.get_id()
    }
    fn get_parent(&self) -> Option<Arc<Team>> {
        None
    }
    fn is_ancestor_of<O: ValueWithId>(&self, _other: Arc<O>) {}
    fn delete(&self) {}
    fn delete_source<S: Source>(&self, _source: &S) {}
    fn add_scoreboard_listener<L: ScoreBoardListener<u32>>(&self, _listener: &L) {}
    fn remove_scoreboard_listener<L: ScoreBoardListener<u32>>(&self, _listener: &L) {}
}

#[test]
fn events_compare_by_provider_name_and_property() {
    let team = Arc::new(Team { name: "Team".to_string() });
    let other = Arc::new(Team { name: "Other".to_string() });
    let score = || Property::<u32, Child>::Value { json_name: "Score".to_string(), value: 0 };
    let e1 = ScoreBoardEvent::new(team.clone(), score(), Some(3), Some(2));
    let e2 = ScoreBoardEvent::new_with_remove(team.clone(), score(), None, true);
    let e3 = ScoreBoardEvent::new(other.clone(), score(), Some(3), Some(2));
    assert!(e1 == e2);
    assert!(e1 != e3);
    assert_eq!(e1.get_value(), Some(3));
    assert_eq!(e1.get_previous_value(), Some(2));
    assert!(!e1.is_remove());
    assert!(e2.is_remove());
    assert_eq!(e2.get_previous_value(), None);
    assert_eq!(e1.get_provider().get_provider_name(), "Team");
    assert_eq!(e1.get_property().get_json_name(), "Score");
    Printer.score_board_change(e3);
}

#[test]
fn same_event_needs_same_provider_name_and_property() {
    let a: Property<u32, Child> = Property::Value { json_name: "Jam".to_string(), value: 1 };
    let b: Property<u32, Child> = Property::Value { json_name: "Jam".to_string(), value: 2 };
    let c: Property<u32, Child> = Property::Value { json_name: "Period".to_string(), value: 1 };
    let p = "Game".to_string();
    let q = "Team".to_string();
    assert!(same_event(&p, &a, &p, &b));
    assert!(!same_event(&p, &a, &q, &b));
    assert!(!same_event(&p, &a, &p, &c));
}
