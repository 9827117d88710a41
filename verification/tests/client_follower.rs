//! The follower: converge, survive a reconnect, survive a gap.

use std::sync::Arc;

use lug::cavlc::mvcc::Store;
use lug::cavlc::patch::Patch;
use lug::client::config::Backoff;
use lug::client::error::Error;
use lug::client::follower::{
    backlog, fatal, Act, After, Awaited, Event, Next, Outbox, Over, Seen, State, Status, Task,
};
use lug::client::view::View;
use lug::json::{Json, Number};
use lug::proto::{Code, Mode, Record, Response};

fn of_serde(value: &serde_json::Value) -> Json {
    match value {
        serde_json::Value::Null => Json::Null,
        serde_json::Value::Bool(b) => Json::Bool(*b),
        serde_json::Value::Number(n) => Json::Number(Number::Unsigned(n.as_u64().unwrap())),
        serde_json::Value::String(s) => Json::Text(s.clone()),
        serde_json::Value::Array(items) => Json::Array(items.iter().map(of_serde).collect()),
        serde_json::Value::Object(map) => {
            Json::Object(map.iter().map(|(k, v)| (k.clone(), of_serde(v))).collect())
        }
    }
}

fn json(text: &str) -> Json {
    of_serde(&serde_json::from_str(text).expect("JSON"))
}

fn create(key: &str, value: &str) -> Json {
    json(&format!(r#"{{"Create":{{"{key}":{value}}}}}"#))
}

/// The patch sequence every test folds: creates, updates, a nested edit.
fn sequence() -> Vec<Json> {
    let mut patches = vec![
        create("title", r#""lug""#),
        create("author", r#"{"name":"Gluck"}"#),
        json(r#"{"Update":{"title":"lug: a little log"}}"#),
        json(r#"{"Update":{"author":{"Create":{"city":"Atlanta"}}}}"#),
    ];
    for n in 0..20 {
        patches.push(create(&format!("k{n}"), &n.to_string()));
    }
    patches
}

/// A server of one log.
struct Sim {
    store: Store,
    records: Vec<Record>,
    bare: bool,
}

impl Sim {
    fn new() -> Self {
        Sim { store: Store::new(), records: Vec::new(), bare: false }
    }

    fn append(&mut self, patches: &[Json]) {
        for patch in patches {
            let applied = self.store.apply(&Patch::from_json(patch).unwrap()).unwrap();
            let version = applied.snapshot.version();
            self.records.push(Record { version, patch: patch.copy() });
        }
    }

    fn version(&self) -> u64 {
        self.store.snapshot().version()
    }

    fn root(&self) -> Json {
        self.store.snapshot().root().to_json()
    }

    fn value(&self) -> Json {
        if self.bare {
            self.root()
        } else {
            Json::Object(vec![
                ("root".to_string(), self.root()),
                ("version".to_string(), Json::Number(Number::Unsigned(self.version()))),
            ])
        }
    }

    fn view(&self) -> Response {
        Response::View { id: 1, version: self.version(), value: self.value() }
    }

    fn read(&self) -> Result<View, Error> {
        Ok(View { version: self.version(), value: self.value() })
    }

    fn push(&self, after: u64) -> Response {
        Response::Records {
            id: 1,
            records: self.records.iter().filter(|r| r.version > after).cloned().collect(),
        }
    }
}

/// Take a turn, and gather what the consumers see of it.
struct Consumer {
    task: Task,
    state: State,
    events: Vec<Event>,
    /// The versions that woke the consumer, each with the version of the state
    /// and the number of events it could then see.
    wakes: Vec<(u64, u64, usize)>,
}

impl Consumer {
    fn new() -> Self {
        Consumer {
            task: Task::new(),
            state: State::initial(),
            events: Vec::new(),
            wakes: Vec::new(),
        }
    }

    fn told(&mut self, acts: Vec<Act>) {
        for act in acts {
            match act {
                Act::Emit(event) => self.events.push(event),
                Act::Show(state) => self.state = state,
                Act::Wake(version) => {
                    self.wakes.push((version, self.state.version, self.events.len()));
                }
            }
        }
    }

    fn see(&mut self, seen: Seen) -> Next {
        let (acts, next) = self.task.seen(seen);
        self.told(acts);
        next
    }

    fn frame(&mut self, frame: Response) -> Next {
        self.see(Seen::Frame(frame))
    }

    fn root(&self) -> Json {
        self.state.snapshot.as_ref().expect("view").root().to_json()
    }
}

#[test]
fn the_follower_converges_on_the_servers_view() {
    let mut sim = Sim::new();
    let mut follower = Consumer::new();
    assert_eq!(follower.task.options(8).mode, Mode::Reducible);
    assert!(matches!(follower.frame(sim.view()), Next::Continue));

    let patches = sequence();
    for patch in &patches {
        let before = sim.version();
        sim.append(std::slice::from_ref(patch));
        assert!(matches!(follower.frame(sim.push(before)), Next::Continue));
    }

    assert!(matches!(follower.state.awaited(patches.len() as u64), Awaited::Reached));
    assert_eq!(follower.state.status, Status::Live);
    assert!(follower.state.reducible());
    assert_eq!(follower.state.snapshot.as_ref().unwrap().version(), sim.version());
    assert_eq!(follower.root(), sim.root());

    let view = follower.state.json().expect("view");
    assert_eq!(view.version, sim.version());
    assert_eq!(view.value, sim.root());
}

#[test]
fn the_view_preamble_may_be_a_bare_root() {
    let mut sim = Sim::new();
    sim.bare = true;
    sim.append(&sequence());
    let mut follower = Consumer::new();
    follower.frame(sim.view());
    assert_eq!(follower.state.version, sim.version());
    assert_eq!(follower.root(), sim.root());
}

#[test]
fn the_follower_survives_a_reconnect() {
    let mut sim = Sim::new();
    let mut follower = Consumer::new();
    follower.frame(sim.view());
    sim.append(&sequence());
    follower.frame(sim.push(0));
    assert_eq!(follower.state.version, sim.version());

    let broken = match follower.see(Seen::Fault(Error::Disconnected { id: 1 })) {
        Next::Failed(e) => e,
        _ => panic!("a broken connection is a failure"),
    };
    let backoff = Backoff { min: 50, max: 80 };
    let (acts, after, delay) = follower.task.conclude(Over::Failed(broken), backoff, 50);
    follower.told(acts);
    assert_eq!(follower.state.status, Status::Reconnecting);
    assert_eq!(after, After::Wait(50));
    assert_eq!(delay, 80);
    // Patches that land while the follower is detached must still show up.
    sim.append(&[create("after", r#""the reconnect""#)]);

    assert_eq!(follower.task.options(8).from, sim.version() - 1);
    follower.frame(sim.view());
    assert_eq!(follower.state.status, Status::Live);
    assert_eq!(follower.root(), sim.root());
    assert_eq!(follower.events.last(), Some(&Event::Reset { version: sim.version() }));
}

#[test]
fn the_follower_recovers_from_a_gap() {
    let mut sim = Sim::new();
    let mut follower = Consumer::new();
    follower.frame(sim.view());
    sim.append(&sequence());
    follower.frame(sim.push(0));
    let seen = sim.version();

    // The server reclaims everything the follower has not seen, then moves on:
    // the records are gone, so only a refetched view can be correct.
    sim.append(&[create("hidden", "1")]);
    let floor = sim.version();
    sim.append(&[create("after_gap", "2")]);
    let next = follower.frame(Response::Gap { id: 1, from: seen, to: floor });
    assert!(matches!(next, Next::Read { from, floor: at } if from == seen && at == floor));
    let (acts, next) = follower.task.refetched(seen, floor, sim.read());
    follower.told(acts);
    assert!(matches!(next, Next::Continue));
    follower.frame(sim.push(floor));
    assert_eq!(follower.root(), sim.root());

    let mut gap = None;
    for event in &follower.events {
        if let Event::Gap { from, to } = event {
            gap = Some((*from, *to));
        }
    }
    let (from, to) = gap.expect("the gap was hidden from the consumer");
    assert!(to > from, "a gap that covers nothing is not a gap: {from}..{to}");
    assert!(to >= sim.version() - 1, "the gap must run to where the view resumed");
}

#[test]
fn records_reach_the_consumer_in_order() {
    let mut sim = Sim::new();
    let mut follower = Consumer::new();
    let patches = sequence();
    // Fold the first patch before taking the stream, so what follows is
    // unambiguously pushed rather than carried by the view preamble.
    sim.append(&patches[..1]);
    follower.frame(sim.view());
    sim.append(&patches[1..]);
    follower.frame(sim.push(0));

    let mut expected = 2;
    for event in &follower.events {
        if let Event::Record(record) = event {
            assert_eq!(record.version, expected, "records arrived out of order");
            expected += 1;
        }
    }
    assert_eq!(expected - 1, patches.len() as u64);
}

fn refused(code: Code, message: &str) -> Error {
    Error::Server { id: 1, code, message: message.to_string() }
}

#[test]
fn a_plain_log_still_ticks_its_versions() {
    let mut sim = Sim::new();
    let mut follower = Consumer::new();
    let next = follower.see(Seen::Fault(refused(Code::NotReducible, "events keeps no view")));
    assert!(matches!(next, Next::Restart));
    assert_eq!(follower.task.options(8).mode, Mode::Records);
    sim.append(&sequence());
    follower.frame(sim.push(0));

    assert!(
        follower.state.snapshot.is_none(),
        "a log that keeps no view must not pretend to have one"
    );
    assert!(!follower.state.reducible(), "a plain log is not reducible");
    assert!(follower.state.json().is_none());
    assert_eq!(follower.state.version, sim.version());

    // A jump is marked, and what follows it still arrives.
    let last = sim.version();
    let jump = Response::Records {
        id: 1,
        records: vec![Record { version: last + 3, patch: Json::Null }],
    };
    assert!(matches!(follower.frame(jump), Next::Continue));
    let told = follower.events.len();
    assert_eq!(follower.events[told - 2], Event::Gap { from: last, to: last + 2 });
    assert_eq!(follower.state.version, last + 3);
    follower.frame(Response::Gap { id: 1, from: last + 3, to: last + 9 });
    assert_eq!(follower.state.version, last + 9);
}

#[test]
fn following_a_missing_log_stops_with_the_reason() {
    let mut follower = Consumer::new();
    let e = match follower.see(Seen::Fault(refused(Code::NoSuchLog, "no log absent"))) {
        Next::Failed(e) => e,
        _ => panic!("not a failure"),
    };
    assert!(fatal(&e));
    let backoff = Backoff { min: 1, max: 2 };
    let (acts, after, _) = follower.task.conclude(Over::Failed(e), backoff, 1);
    assert_eq!(after, After::Stop);
    follower.told(acts);
    let state = follower.state.clone();
    assert!(state.status.is_final());
    assert!(!state.status.is_live());
    match &state.status {
        Status::Failed(e) => assert!(e.message().contains("no log absent")),
        _ => panic!("stopped for the wrong reason"),
    }
    match state.awaited(1) {
        Awaited::Stopped(Error::Protocol { id: 0, detail }) => {
            assert!(detail.starts_with("follower stopped before version 1: "));
            assert!(detail.contains("no log absent"));
        }
        _ => panic!("still waiting"),
    }
}

#[test]
fn clones_see_the_same_stream() {
    let mut sim = Sim::new();
    sim.append(&sequence());
    let mut follower = Consumer::new();
    follower.frame(sim.view());
    let one = follower.state.clone();
    sim.append(&[create("later", "1")]);
    follower.frame(sim.push(0));
    // A state that was taken stays as it was.
    assert_eq!(one.version + 1, follower.state.version);
    assert!(one.snapshot.as_ref().unwrap().root().get("later").is_none());
    assert!(one.status == follower.state.status);
}

#[test]
fn the_gap_is_queued_before_the_refetched_version_wakes_a_renderer() {
    let mut sim = Sim::new();
    sim.append(&[create("seed", "1")]);
    let mut follower = Consumer::new();
    follower.frame(sim.view());
    follower.wakes.clear();
    sim.append(&[create("hidden", "2")]);
    sim.append(&[create("after", "3")]);
    let next = follower.frame(Response::Gap { id: 1, from: 1, to: 2 });
    assert!(matches!(next, Next::Read { from: 1, floor: 2 }));
    assert!(follower.wakes.is_empty());
    let (acts, _) = follower.task.refetched(1, 2, sim.read());
    follower.told(acts);

    // At the wake itself the gap is queued and the view is there to see.
    assert_eq!(follower.wakes, [(3, 3, 1)]);
    assert_eq!(
        follower.events,
        [Event::Gap { from: 1, to: 3 }, Event::Reset { version: 3 }]
    );
}

#[test]
fn every_wake_finds_its_state() {
    let mut sim = Sim::new();
    let mut follower = Consumer::new();
    follower.frame(sim.view());
    sim.append(&sequence());
    follower.frame(sim.push(0));
    let backoff = Backoff { min: 1, max: 2 };
    let (acts, _, _) = follower.task.conclude(Over::Ended, backoff, 1);
    follower.told(acts);
    assert_eq!(follower.wakes.len(), 3);
    assert!(follower.wakes.iter().all(|(woken, shown, _)| woken == shown));
}

#[test]
fn a_gap_behind_the_cursor_is_told_all_the_same() {
    let mut sim = Sim::new();
    sim.append(&sequence()[..5]);
    let mut follower = Consumer::new();
    follower.frame(sim.view());
    let next = follower.frame(Response::Gap { id: 1, from: 2, to: 4 });
    assert!(matches!(next, Next::Read { from: 2, floor: 4 }));
    let (acts, _) = follower.task.refetched(2, 4, sim.read());
    follower.told(acts);
    assert_eq!(
        follower.events,
        [Event::Gap { from: 2, to: 4 }, Event::Reset { version: 5 }]
    );
    // A frame may say more than the cursor does.
    let next = follower.frame(Response::Gap { id: 1, from: 3, to: 8 });
    assert!(matches!(next, Next::Read { from: 3, floor: 8 }));
    let (acts, _) = follower.task.refetched(3, 8, Err(Error::Disconnected { id: 1 }));
    follower.told(acts);
    assert_eq!(follower.events.last(), Some(&Event::Gap { from: 3, to: 8 }));
}

#[test]
fn a_jump_is_recovered_by_reading_the_view() {
    let mut sim = Sim::new();
    let mut follower = Consumer::new();
    follower.frame(sim.view());
    sim.append(&sequence());
    assert!(matches!(follower.frame(sim.push(3)), Next::Read { from: 0, floor: 3 }));
    // A view older than the gap cannot be trusted.
    let old = View { version: 2, value: json("{}") };
    assert!(matches!(follower.task.refetched(0, 3, Ok(old)).1, Next::Restart));
    let lost = Err(Error::Disconnected { id: 1 });
    assert!(matches!(follower.task.refetched(0, 3, lost).1, Next::Restart));
    let refusal = Err(refused(Code::Unauthorized, "no"));
    assert!(matches!(follower.task.refetched(0, 3, refusal).1, Next::Failed(_)));
    let odd = View { version: 9, value: Json::Null };
    assert!(matches!(follower.task.refetched(0, 3, Ok(odd)).1, Next::Failed(Error::View(_))));
    let (acts, next) = follower.task.refetched(0, 3, sim.read());
    follower.told(acts);
    assert!(matches!(next, Next::Continue));
    assert_eq!(follower.root(), sim.root());
}

#[test]
fn a_cursor_out_of_range_starts_over() {
    let mut sim = Sim::new();
    sim.append(&sequence());
    let mut follower = Consumer::new();
    follower.frame(sim.view());
    let next = follower.see(Seen::Fault(refused(Code::OutOfRange, "gone")));
    assert!(matches!(next, Next::Restart));
    assert_eq!(follower.task.options(1).from, 0);
    // What was shown is given up, so the view that comes instead is told as
    // rebuilt.
    let told = follower.events.len();
    follower.frame(sim.view());
    assert_eq!(follower.events[told..], [Event::Reset { version: sim.version() }]);
    let backoff = Backoff { min: 7, max: 9 };
    let (acts, after, delay) = follower.task.conclude(Over::Restart, backoff, 9);
    assert!(acts.is_empty());
    assert_eq!((after, delay), (After::Again, 7));
    assert!(matches!(follower.see(Seen::End), Next::Ended));
    let (acts, after, _) = follower.task.conclude(Over::Ended, backoff, 9);
    follower.told(acts);
    assert_eq!(follower.state.status, Status::Ended);
    assert_eq!(after, After::Stop);
}

#[test]
fn what_does_not_fold_is_told() {
    let mut follower = Consumer::new();
    follower.frame(Sim::new().view());
    let one = |version: u64, patch: &str| Response::Records {
        id: 1,
        records: vec![Record { version, patch: json(patch) }],
    };
    for (patch, reason) in [
        ("7", "invalid type: integer `7`, expected a patch"),
        ("null", "invalid type: null, expected a patch"),
        (r#"{"Create":["x"]}"#, "invalid type: sequence, expected a map"),
        (r#"{"Delete":{}}"#, "invalid type: map, expected a sequence"),
        (r#"{"Delete":["x",true]}"#, "invalid type: boolean `true`, expected a string"),
        (r#"{"Update":"x"}"#, r#"invalid type: string "x", expected a map"#),
        (
            r#"{"Update":{"a":{"Remove":1}}}"#,
            "unknown field `Remove`, expected one of `Create`, `Update`, `Delete`",
        ),
    ] {
        match follower.frame(one(1, patch)) {
            Next::Failed(e) => assert_eq!(
                e.message(),
                format!("protocol violation on 0: version 1 is not a patch: {reason}")
            ),
            _ => panic!("folded"),
        }
    }
    match follower.frame(one(1, "{}")) {
        Next::Failed(e) => assert_eq!(
            e.message(),
            "protocol violation on 0: folded to version 0 but the record says 1"
        ),
        _ => panic!("folded"),
    }
    match follower.frame(one(1, r#"{"Delete":["x"]}"#)) {
        Next::Failed(e) => {
            assert!(fatal(&e));
            assert_eq!(e.message(), "view does not fold: invalid patch: no key \"x\"");
        }
        _ => panic!("folded"),
    }
    assert!(matches!(follower.frame(one(0, "7")), Next::Continue));
}

#[test]
fn a_consumer_that_stops_reading_is_told_what_it_lost() {
    let mut outbox = Outbox::new();
    assert_eq!(outbox.notice(), None);
    outbox.tried(false);
    outbox.tried(false);
    assert_eq!(outbox.notice(), Some(Event::Dropped(2)));
    outbox.noticed(false);
    assert_eq!(outbox.notice(), Some(Event::Dropped(2)));
    outbox.noticed(true);
    outbox.tried(true);
    assert_eq!(outbox.notice(), None);
    assert_eq!(backlog(0), 1);
    assert_eq!(backlog(64), 64);
    assert_eq!(backlog(1 << 20), 4096);
}

#[test]
fn failures_compare_by_what_they_say() {
    let a = Status::Failed(Arc::new(refused(Code::NoSuchLog, "no log a")));
    let b = Status::Failed(Arc::new(refused(Code::NoSuchLog, "no log a")));
    let c = Status::Failed(Arc::new(refused(Code::NoSuchLog, "no log c")));
    assert!(a == b);
    assert!(a != c);
    assert!(a != Status::Ended);
    assert!(Status::Reconnecting == Status::Reconnecting);
}

#[test]
fn a_gap_is_told_even_if_no_view_can_be_read() {
    let mut sim = Sim::new();
    sim.append(&[create("seed", "1")]);
    let mut task = Task::new();
    task.seen(Seen::Frame(sim.view()));
    let gap = |acts: &[Act]| match acts {
        [Act::Emit(Event::Gap { from, to })] => Some((*from, *to)),
        _ => None,
    };
    let (_, next) = task.seen(Seen::Frame(Response::Gap { id: 1, from: 1, to: 4 }));
    assert!(matches!(next, Next::Read { from: 1, floor: 4 }));
    let (acts, next) = task.refetched(1, 4, Err(Error::Disconnected { id: 1 }));
    assert_eq!(gap(&acts), Some((1, 4)));
    assert!(matches!(next, Next::Restart));
    let (acts, _) = task.refetched(1, 4, Ok(View { version: 2, value: json("{}") }));
    assert_eq!(gap(&acts), Some((1, 4)));
    let (acts, _) = task.refetched(1, 4, Err(refused(Code::Unauthorized, "no")));
    assert_eq!(gap(&acts), Some((1, 4)));
}
