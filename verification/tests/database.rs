use catcount::moment::date_range;
use catcount::pipeline::pipeline;
use catcount::tunnel::{
    advance, begin, database_uri, describe, ssh_args, Action, Event, Outcome, Waiting,
};
use mongodb::bson::{Bson, DateTime, Document};

fn one(name: &str, value: impl Into<Bson>) -> Document {
    let mut d = Document::new();
    d.insert(name, value);
    d
}

fn with(mut d: Document, name: &str, value: impl Into<Bson>) -> Document {
    d.insert(name, value);
    d
}

fn text_or_none(field: &str) -> Document {
    let choices = Bson::Array(vec![Bson::from(field), Bson::from("(none)")]);
    one("$toString", one("$ifNull", choices))
}

#[test]
fn the_aggregation_counts_a_range_by_category() {
    let (start, end) = date_range("2026-01-01", "2026-01-31").unwrap();
    let bounds = with(
        one("$gte", DateTime::from_millis(1_767_225_600_000)),
        "$lte",
        DateTime::from_millis(1_769_903_999_999),
    );
    let id = one("cat", text_or_none("$cat"));
    let stages = |id: Document| {
        vec![
            one("$match", one("pubdate", bounds.clone())),
            one("$group", with(one("_id", id), "count", one("$sum", 1))),
            one("$sort", with(one("count", -1), "_id", 1)),
        ]
    };
    assert_eq!(pipeline(start, end, false), stages(id.clone()));
    let split = with(id, "pubname", text_or_none("$pubname"));
    assert_eq!(pipeline(start, end, true), stages(split));
    let sort = pipeline(start, end, true)[2].get_document("$sort").unwrap().clone();
    let keys: Vec<&String> = sort.keys().collect();
    assert_eq!(keys, ["count", "_id"]);
}

#[test]
fn ssh_forwards_the_port() {
    assert_eq!(
        ssh_args("con1", 27018, 27017),
        [
            "-N",
            "-o",
            "ExitOnForwardFailure=yes",
            "-o",
            "BatchMode=yes",
            "-L",
            "27018:127.0.0.1:27017",
            "con1",
        ]
    );
}

#[test]
fn the_database_is_behind_the_tunnel() {
    assert_eq!(database_uri(None, false, 27020), "mongodb://127.0.0.1:27020");
    assert_eq!(database_uri(None, true, 27020), "mongodb://127.0.0.1:27017");
    assert_eq!(database_uri(Some("mongodb://h".to_string()), true, 1), "mongodb://h");
}

fn run(events: &[Event]) -> (Waiting, Action) {
    let mut step = begin();
    for event in events {
        step = advance(step.waiting, *event);
    }
    (step.waiting, step.action)
}

fn ended(outcome: Outcome) -> (Waiting, Action) {
    (Waiting::Nothing, Action::Finish { outcome })
}

const CLOSED: Event = Event::Port { open: false };
const OPEN: Event = Event::Port { open: true };
const STARTED: Event = Event::Spawned { ok: true };
const SOON: Event = Event::Elapsed { millis: 14_999 };
const LATE: Event = Event::Elapsed { millis: 15_000 };

#[test]
fn an_open_port_is_reused() {
    assert_eq!(run(&[]), (Waiting::FirstProbe, Action::ProbePort));
    assert_eq!(run(&[OPEN]), ended(Outcome::Reused));
}

#[test]
fn a_tunnel_comes_up() {
    assert_eq!(run(&[CLOSED]), (Waiting::Spawn, Action::SpawnSsh));
    assert_eq!(run(&[CLOSED, STARTED]), (Waiting::Clock, Action::ReadClock));
    assert_eq!(run(&[CLOSED, STARTED, SOON]), (Waiting::Child, Action::PollChild));
    let waiting = [CLOSED, STARTED, SOON, Event::ChildRuns, CLOSED];
    assert_eq!(run(&waiting), (Waiting::Pause, Action::Sleep { millis: 150 }));
    let mut up = waiting.to_vec();
    up.extend([Event::Woke, SOON, Event::ChildRuns, OPEN]);
    assert_eq!(run(&up), ended(Outcome::Opened));
}

#[test]
fn a_tunnel_fails() {
    assert_eq!(run(&[CLOSED, Event::Spawned { ok: false }]), ended(Outcome::SpawnFailed));
    assert_eq!(run(&[CLOSED, STARTED, LATE]), ended(Outcome::TimedOut));
    assert_eq!(run(&[CLOSED, STARTED, SOON, Event::ChildExited]), ended(Outcome::ExitedEarly));
    assert_eq!(run(&[CLOSED, STARTED, SOON, Event::ChildUnknown]), ended(Outcome::PollFailed));
}

#[test]
fn outcomes_are_told() {
    let told = |outcome| describe(outcome, "con1", 27017, "exit status: 255");
    assert_eq!(
        told(Outcome::Reused).unwrap(),
        "note: 127.0.0.1:27017 already accepting connections; reusing it"
    );
    assert_eq!(told(Outcome::SpawnFailed).unwrap(), "failed to spawn ssh to con1");
    assert_eq!(
        told(Outcome::ExitedEarly).unwrap(),
        "ssh tunnel to con1 exited early (exit status: 255)"
    );
    assert_eq!(
        told(Outcome::TimedOut).unwrap(),
        "timed out waiting for the ssh tunnel to con1 on port 27017"
    );
    assert_eq!(told(Outcome::Opened), None);
    assert_eq!(told(Outcome::PollFailed), None);
}
