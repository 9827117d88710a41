//! A load run against a server that answers as it is documented to, or almost.

use std::collections::HashMap;

use lug::json::Json;
use lug::load::check::{patch, Ledger, Violation};
use lug::load::config::Config;
use lug::load::fault::Fault;
use lug::load::pool::{created, creation, Control, Desk, Heartbeat, CONTROL};
use lug::load::probe::{
    churn_cancellation, churn_closed, churn_subscription, crash_acknowledged, crash_append,
    crash_name, isolation_config, replay, replay_closed, replay_heard, settle, Came, Cancelling,
    Stage, Todo, PROBES, QUIET,
};
use lug::load::run::{Loaded, Plan, Run, Wait, APPEND_BASE, CREDIT, STALLED};
use lug::load::wire::{hello, validate_welcome};
use lug::proto::codec::MAX_FRAME;
use lug::proto::{Durability, LogInfo, Mode, Record, Request, Response};

const MILLI: u64 = 1_000_000;

#[derive(Clone, Copy, PartialEq, Eq)]
enum Trouble {
    Nothing,
    Gap,
    Duplicate,
    Order,
    AckLoss,
    StallOnZeroCredit,
    IgnoreCredit,
}

struct Subscriber {
    id: u64,
    peer: usize,
    log: String,
    cursor: usize,
    credit: u32,
}

/// The server. Appends take it some time each.
struct Mock {
    trouble: Trouble,
    delay: u64,
    free: u64,
    logs: HashMap<String, Vec<Record>>,
    subscribers: Vec<Subscriber>,
    /// What it sent, with the moment it arrives.
    sent: Vec<(u64, usize, Response)>,
}

impl Mock {
    fn start(trouble: Trouble, delay: u64) -> Self {
        Mock {
            trouble,
            delay,
            free: 0,
            logs: HashMap::new(),
            subscribers: Vec::new(),
            sent: Vec::new(),
        }
    }

    fn say(&mut self, at: u64, peer: usize, response: Response) {
        self.sent.push((at, peer, response));
    }

    fn hear(&mut self, now: u64, peer: usize, request: Request) {
        let id = request.id();
        let mut at = now.max(self.free);
        if matches!(request, Request::Append { .. }) {
            at += self.delay;
        }
        self.free = at;
        match request {
            Request::Hello { version, .. } => self.say(
                at,
                peer,
                Response::Welcome { id, version, max_frame: MAX_FRAME, session: None },
            ),
            Request::Create { log, .. } => {
                self.logs.entry(log.clone()).or_default();
                let info =
                    LogInfo { name: log, reducible: false, version: 0, oldest: 0, subscribers: 0 };
                self.say(at, peer, Response::Logs { id, logs: vec![info] });
            }
            Request::Append { log, patches, .. } => {
                if self.trouble == Trouble::StallOnZeroCredit
                    && self.subscribers.iter().any(|s| s.credit == 0)
                {
                    return;
                }
                let records = self.logs.get_mut(&log).expect("append to absent log");
                let version = records.len() as u64 + 1;
                records.push(Record { version, patch: patches[0].clone() });
                self.fanout(at);
                if self.trouble != Trouble::AckLoss {
                    self.say(at, peer, Response::Ack { id, versions: vec![version], synced: version });
                }
            }
            Request::Subscribe { log, from, credit, .. } => {
                self.subscribers.push(Subscriber { id, peer, log, cursor: from as usize, credit });
                self.say(at, peer, Response::Accepted { id });
                self.fanout(at);
            }
            Request::Credit { grant, .. } => {
                let subscriber = self
                    .subscribers
                    .iter_mut()
                    .find(|s| s.peer == peer && s.id == id)
                    .expect("credit for absent stream");
                subscriber.credit += grant;
                self.say(at, peer, Response::Accepted { id });
                self.fanout(at);
            }
            Request::Cancel { .. } => {
                self.subscribers.retain(|s| !(s.peer == peer && s.id == id));
                self.say(at, peer, Response::End { id });
            }
            Request::Ping { .. } => self.say(at, peer, Response::Pong { id }),
            _ => panic!("not a request of a load"),
        }
    }

    fn fanout(&mut self, at: u64) {
        let mut pushes = Vec::new();
        for subscriber in &mut self.subscribers {
            let records = &self.logs[&subscriber.log];
            while subscriber.cursor < records.len()
                && (subscriber.credit > 0 || self.trouble == Trouble::IgnoreCredit)
            {
                let mut record = records[subscriber.cursor].clone();
                subscriber.cursor += 1;
                subscriber.credit = subscriber.credit.saturating_sub(1);
                if self.trouble == Trouble::Gap && record.version == 1 {
                    continue;
                }
                if self.trouble == Trouble::Order && subscriber.id == 2 && record.version == 2 {
                    record.patch = records[0].patch.clone();
                }
                let response = Response::Records { id: subscriber.id, records: vec![record] };
                pushes.push((subscriber.peer, response.clone()));
                if self.trouble == Trouble::Duplicate {
                    pushes.push((subscriber.peer, response));
                }
            }
        }
        for (peer, response) in pushes {
            self.say(at, peer, response);
        }
    }

    /// The frame that arrives next.
    fn next(&mut self, before: u64) -> Option<(u64, usize, Response)> {
        let mut first: Option<usize> = None;
        for i in 0..self.sent.len() {
            if first.map_or(true, |f| self.sent[i].0 < self.sent[f].0) {
                first = Some(i);
            }
        }
        let i = first?;
        if self.sent[i].0 <= before {
            Some(self.sent.remove(i))
        } else {
            None
        }
    }
}

/// The connections, and the time.
struct Pool {
    mock: Mock,
    desk: Desk,
    peers: usize,
    now: u64,
}

impl Pool {
    fn open(mock: Mock, peers: usize) -> Self {
        Pool { mock, desk: Desk::new(peers), peers, now: 0 }
    }

    fn send(&mut self, peer: usize, request: Request) {
        self.desk.expect(peer, &request);
        self.mock.hear(self.now, peer, request);
    }

    /// The next frame before `until`, as the desk sees it.
    fn next(&mut self, until: u64) -> Result<Option<(usize, Response)>, Fault> {
        match self.mock.next(until) {
            None => Ok(None),
            Some((at, peer, response)) => {
                self.now = self.now.max(at);
                let response = self.desk.next(peer, Ok(response))?;
                Ok(Some((peer, response)))
            }
        }
    }

    fn control(&mut self, request: Request) -> Result<Response, Fault> {
        let control = Control::begin(&request);
        self.send(0, request);
        while let Some((_, response)) = self.next(u64::MAX)? {
            if let Some(reply) = control.judge(response)? {
                return Ok(reply);
            }
        }
        Err(Fault::ControlTimeout { id: control.id, deadline: 1 })
    }

    fn create(&mut self, names: &[String]) -> Result<(), Fault> {
        for name in names {
            let reply = self.control(creation(name))?;
            created(name, reply)?;
        }
        Ok(())
    }

    fn heartbeat(&mut self) -> Result<(), Fault> {
        let mut heartbeat = Heartbeat::begin(self.peers);
        for peer in 0..self.peers {
            self.send(peer, Heartbeat::ping());
        }
        while !heartbeat.done(&self.desk) {
            match self.next(u64::MAX)? {
                Some((peer, response)) => heartbeat.heard(peer, response)?,
                None => return Err(Fault::HeartbeatTimeout),
            }
        }
        Ok(())
    }

    fn load(&mut self, cfg: Config, names: Vec<String>) -> Result<Loaded, Fault> {
        let plan = Plan { cfg, names, peers: self.peers };
        let (mut run, subscriptions) = Run::open(plan).expect("a plan");
        for (peer, request) in subscriptions {
            self.send(peer, request);
        }
        while !self.desk.settled() {
            if self.next(u64::MAX)?.is_none() {
                return Err(Fault::LoadTimeout);
            }
        }
        run.begin(self.now);
        loop {
            let until = match run.wait(self.now) {
                Wait::Finished => break,
                Wait::Due(at) => at,
                Wait::End(at) => at,
                Wait::Drain => run.deadline(),
            };
            match self.next(until)? {
                Some((peer, response)) => {
                    if let Some((peer, request)) = run.heard(peer, self.now, response)? {
                        self.send(peer, request);
                    }
                }
                None => {
                    self.now = self.now.max(until);
                    match run.wait(self.now) {
                        Wait::Due(_) => {
                            let (peer, request) = run.issue()?;
                            self.send(peer, request);
                        }
                        Wait::Drain => return Err(run.stalled()),
                        _ => {}
                    }
                }
            }
        }
        run.sampled(4096);
        run.finish(self.now, (10, 20), (15, 40))
    }

    fn cancel(&mut self, loaded: &mut Loaded) -> Result<(), Fault> {
        let (mut cancelling, requests) = Cancelling::begin(&loaded.plan);
        for (peer, request) in requests {
            self.send(peer, request);
        }
        while !cancelling.done() {
            match self.next(u64::MAX)? {
                Some((_, response)) => cancelling.heard(&mut loaded.ledger, response)?,
                None => return Err(Fault::CancelTimeout),
            }
        }
        settle(&loaded.ledger)
    }

    fn replay(&mut self, names: &Vec<String>, ledger: &mut Ledger) -> Result<(), Fault> {
        for request in replay(ledger, names)? {
            self.send(0, request);
        }
        while !ledger.complete() {
            match self.next(u64::MAX)? {
                Some((_, response)) => {
                    if let Some(request) = replay_heard(ledger, response)? {
                        self.send(0, request);
                    }
                }
                None => return Err(Fault::DataLoss),
            }
        }
        settle(ledger)?;
        for log in 0..names.len() {
            let reply = self.control(Request::Cancel { id: log as u64 + 1 })?;
            replay_closed(reply)?;
        }
        self.heartbeat()
    }

    fn backpressure(&mut self, cfg: &Config) -> Result<(), Fault> {
        let probe = isolation_config(cfg);
        let size = probe.patch_size;
        let names = vec!["credit-isolation".to_string()];
        let mut loaded: Option<Loaded> = None;
        let mut stage = Stage::Create;
        loop {
            let came = match stage.todo() {
                Todo::Create(name) => {
                    self.create(&[name])?;
                    Came::Done
                }
                Todo::Send(request) => {
                    self.send(0, request);
                    Came::Done
                }
                Todo::Load => match self.load(probe.clone(), names.clone()) {
                    Ok(done) => {
                        loaded = Some(done);
                        Came::Done
                    }
                    Err(fault) => Came::Failed(fault),
                },
                Todo::Cancel => match self.cancel(loaded.as_mut().expect("a load")) {
                    Ok(()) => Came::Done,
                    Err(fault) => Came::Failed(fault),
                },
                Todo::Listen => match self.next(u64::MAX)? {
                    Some((_, response)) => Came::Frame(response),
                    None => Came::TimedOut,
                },
                Todo::Heartbeat => match self.heartbeat() {
                    Ok(()) => Came::Done,
                    Err(fault) => Came::Failed(fault),
                },
                Todo::Quiet(span) => match self.next(self.now + span)? {
                    Some((_, response)) => Came::Frame(response),
                    None => Came::Silence,
                },
                Todo::Ask(request) => Came::Frame(self.control(request)?),
                Todo::Nothing => return Ok(()),
            };
            stage = stage.step(came, size)?;
        }
    }
}

fn config() -> Config {
    Config {
        connections: 1,
        logs: 2,
        appenders: 2,
        subscribers: 3,
        rate: 1000,
        duration: 20 * MILLI,
        timeout: 200 * MILLI,
        patch_size: 32,
        ..Config::default()
    }
}

fn names() -> Vec<String> {
    vec!["one".to_string(), "two".to_string()]
}

fn exercise(trouble: Trouble, delay: u64) -> Result<Loaded, Fault> {
    let mut pool = Pool::open(Mock::start(trouble, delay), 1);
    pool.create(&names())?;
    let mut loaded = pool.load(config(), names())?;
    pool.cancel(&mut loaded)?;
    pool.heartbeat()?;
    Ok(loaded)
}

#[test]
fn exact_multi_log_multi_subscriber_history_over_real_unix_socket() {
    let loaded = exercise(Trouble::Nothing, 0).unwrap();
    assert_eq!(loaded.metrics.scheduled, 20);
    assert_eq!(loaded.metrics.acknowledged, 20);
    assert_eq!(loaded.metrics.delivered, 60);
    loaded.ledger.finish().unwrap();
    assert_eq!(loaded.metrics.append.count(), 20);
    assert_eq!(loaded.metrics.delivery.count(), 60);
    assert_eq!(loaded.metrics.in_window_acks, 20);
    assert_eq!((loaded.metrics.tx_bytes, loaded.metrics.rx_bytes), (5, 20));
    assert_eq!(loaded.metrics.rss_peak, 4096);
    assert_eq!(loaded.metrics.elapsed, 20 * MILLI);
}

#[test]
fn mock_delay_appears_as_queueing_in_intended_time_histogram() {
    let loaded = exercise(Trouble::Nothing, 3 * MILLI).unwrap();
    assert!(loaded.metrics.append.samples().inner.value_at_quantile(0.99) > 30_000);
    assert!(loaded.metrics.in_window_acks < 20);
}

#[test]
fn injected_gaps_duplicates_order_changes_and_ack_loss_all_fail() {
    for trouble in [Trouble::Gap, Trouble::Duplicate, Trouble::Order, Trouble::AckLoss] {
        assert!(exercise(trouble, 0).is_err());
    }
    match exercise(Trouble::AckLoss, 0) {
        Err(fault) => assert_eq!(
            fault.message(),
            "LOAD STALLED: scheduled 20/20, acked 0, delivered 60; drain exceeded 200ms; credit isolation or delivery invariant failed"
        ),
        Ok(_) => panic!("acknowledgements were lost"),
    }
}

#[test]
fn overload_is_a_failed_run_not_silent_sample_loss() {
    let mut pool = Pool::open(Mock::start(Trouble::Nothing, 30 * MILLI), 1);
    let cfg = Config { max_inflight: 1, ..config() };
    pool.create(&names()).unwrap();
    let failure = pool.load(cfg, names()).err().unwrap();
    assert!(failure.message().contains("OVERLOAD"));
}

#[test]
fn stopped_credit_probe_passes_only_when_other_work_progresses() {
    let cfg = Config { timeout: 2000 * MILLI, ..Config::default() };
    let mut good = Pool::open(Mock::start(Trouble::Nothing, 0), 1);
    good.backpressure(&cfg).unwrap();
    for trouble in [Trouble::StallOnZeroCredit, Trouble::IgnoreCredit] {
        let mut bad = Pool::open(Mock::start(trouble, 0), 1);
        let failure = bad.backpressure(&cfg).err().unwrap();
        assert!(failure.message().contains("BACKPRESSURE"));
    }
}

#[test]
fn replay_of_missing_acknowledged_tail_fails_loudly() {
    let mut pool = Pool::open(Mock::start(Trouble::Nothing, 0), 1);
    pool.create(&names()).unwrap();
    let mut loaded = pool.load(config(), names()).unwrap();
    pool.cancel(&mut loaded).unwrap();
    pool.replay(&names(), &mut loaded.ledger).unwrap();
    pool.mock.logs.get_mut("one").unwrap().pop();
    let failure = pool.replay(&names(), &mut loaded.ledger).err().unwrap();
    assert!(failure.message().contains("DURABLE DATA LOSS"));
}

#[test]
fn held_connections_and_short_lived_accepts_are_separate_regimes() {
    let mut pool = Pool::open(Mock::start(Trouble::Nothing, 0), 128);
    assert_eq!(pool.peers, 128);
    let mut accepted = 0;
    for _ in 0..64 {
        let mut one = Pool::open(Mock::start(Trouble::Nothing, 0), 1);
        one.send(0, hello());
        let (_, welcome) = one.next(u64::MAX).unwrap().unwrap();
        validate_welcome(&welcome).unwrap();
        accepted += 1;
    }
    assert_eq!(accepted, 64);
    pool.heartbeat().unwrap();
}

#[test]
fn a_load_of_several_connections_balances() {
    let mut pool = Pool::open(Mock::start(Trouble::Nothing, 0), 3);
    pool.create(&names()).unwrap();
    let mut loaded = pool.load(config(), names()).unwrap();
    assert_eq!(loaded.metrics.delivered, 60);
    pool.cancel(&mut loaded).unwrap();
    pool.heartbeat().unwrap();
}

fn plan() -> Plan {
    Plan { cfg: config(), names: names(), peers: 2 }
}

fn begun() -> Run {
    let (mut run, subscriptions) = Run::open(plan()).unwrap();
    assert_eq!(subscriptions.len(), 6);
    assert_eq!(
        subscriptions[3],
        (
            1,
            Request::Subscribe {
                id: 4,
                log: "two".to_string(),
                from: 0,
                mode: Mode::Records,
                credit: CREDIT
            }
        )
    );
    run.begin(1000);
    run
}

fn ack(id: u64, version: u64) -> Response {
    Response::Ack { id, versions: vec![version], synced: version }
}

fn text(run: &mut Run, peer: usize, response: Response) -> String {
    run.heard(peer, 2000 * MILLI, response).err().unwrap().message()
}

#[test]
fn a_run_is_paced_by_its_schedule() {
    let mut run = begun();
    assert_eq!(run.wait(0), Wait::Due(1000));
    let (peer, request) = run.issue().unwrap();
    assert_eq!(peer, 0);
    assert_eq!(
        request,
        Request::Append {
            id: APPEND_BASE,
            log: "one".to_string(),
            patches: vec![patch(0, 32)],
            durability: Durability::Durable
        }
    );
    assert_eq!(run.wait(0), Wait::Due(1000 + MILLI));
    let (peer, request) = run.issue().unwrap();
    assert_eq!((peer, request.id()), (1, APPEND_BASE + 1));
    assert_eq!(run.deadline(), 1000 + 220 * MILLI);
}

#[test]
fn replies_out_of_place_are_faults() {
    let mut run = begun();
    run.issue().unwrap();
    assert_eq!(text(&mut run, 0, ack(5, 1)), "unknown append id 5");
    assert_eq!(
        text(&mut begun(), 1, ack(APPEND_BASE, 1)),
        "Ack 4294967296 arrived on connection 1, expected 0"
    );
    assert_eq!(
        text(&mut begun(), 0, ack(APPEND_BASE, 1)),
        "unexpected or duplicate ack 4294967296"
    );
    let records = |id: u64, version: u64| Response::Records {
        id,
        records: vec![Record { version, patch: patch(0, 32) }],
    };
    assert_eq!(
        text(&mut begun(), 0, records(STALLED, 1)),
        "BACKPRESSURE FAILURE: zero-credit subscriber received records"
    );
    assert_eq!(
        text(&mut begun(), 1, records(1, 1)),
        "stream 1 arrived on wrong connection 1"
    );
    assert_eq!(
        text(&mut begun(), 0, records(1, u64::MAX)),
        "NONCONTIGUOUS STREAM 1: expected version 1, got 18446744073709551615 (gap, duplicate or reorder)"
    );
    assert_eq!(
        text(&mut begun(), 0, Response::Gap { id: 1, from: 2, to: 5 }),
        "GAP: stream 1 lost (2, 5] despite retention disabled"
    );
    assert_eq!(
        text(&mut begun(), 0, Response::End { id: 1 }),
        "unexpected load response End { id: 1 }"
    );
    let mut early = begun();
    early.issue().unwrap();
    let fault = early.heard(0, 999, ack(APPEND_BASE, 1)).err().unwrap();
    assert_eq!(fault.message(), "observation precedes intended send time");
    let mut early = begun();
    early.issue().unwrap();
    let fault = early.heard(0, 999, records(1, 1)).err().unwrap();
    assert_eq!(fault.message(), "observation precedes intended send time");
}

#[test]
fn a_stream_is_granted_what_it_used() {
    let mut run = begun();
    run.issue().unwrap();
    let records = vec![Record { version: 1, patch: patch(0, 32) }];
    let back = run.heard(0, 5000, Response::Records { id: 1, records }).unwrap();
    assert_eq!(back, Some((0, Request::Credit { id: 1, grant: 1 })));
    assert_eq!(run.heard(0, 5000, Response::Pong { id: 1 }).unwrap(), None);
    assert_eq!(run.heard(0, 6000, ack(APPEND_BASE, 1)).unwrap(), None);
    let fault = run.finish(6000, (0, 0), (0, 0)).err().unwrap();
    assert!(matches!(fault, Fault::Broken { violation: Violation::SubscriberLoss { .. } }));
}

#[test]
fn a_desk_counts_what_it_is_owed() {
    let mut desk = Desk::new(2);
    assert!(desk.settled());
    let subscribe = Request::Subscribe {
        id: 1,
        log: "l".to_string(),
        from: 0,
        mode: Mode::Records,
        credit: 1,
    };
    desk.expect(0, &subscribe);
    desk.expect(0, &Request::Credit { id: 1, grant: 1 });
    assert!(!desk.settled());
    let early = Response::Records { id: 1, records: Vec::new() };
    assert_eq!(
        desk.next(0, Ok(early.clone())).err().unwrap().message(),
        "stream 1 pushed before subscription acknowledgement"
    );
    desk.next(0, Ok(Response::Accepted { id: 1 })).unwrap();
    desk.next(0, Ok(early)).unwrap();
    desk.next(0, Ok(Response::Accepted { id: 1 })).unwrap();
    assert!(desk.settled());
    assert_eq!(
        desk.next(0, Ok(Response::Accepted { id: 1 })).err().unwrap().message(),
        "duplicate Ok for connection 0, id 1"
    );
    assert_eq!(
        desk.next(1, Ok(Response::Accepted { id: 1 })).err().unwrap().message(),
        "unexpected Ok for connection 1, id 1"
    );
    assert_eq!(
        desk.next(1, Err(lug::load::error::error("gone".to_string()))).err().unwrap().message(),
        "connection 1: gone"
    );
    let refused = Response::Error {
        id: 7,
        code: lug::proto::Code::BadId,
        message: "no such id".to_string(),
    };
    assert_eq!(
        desk.next(1, Ok(refused)).err().unwrap().message(),
        "server error on connection 1, id 7: BadId: no such id"
    );
}

#[test]
fn control_takes_only_its_answer() {
    let ping = Control::begin(&Request::Ping { id: CONTROL });
    let pong = Response::Pong { id: CONTROL };
    assert_eq!(ping.judge(pong.clone()).unwrap(), Some(pong));
    assert_eq!(ping.judge(Response::Pong { id: 1 }).unwrap(), None);
    assert_eq!(
        ping.judge(Response::End { id: 1 }).err().unwrap().message(),
        "unexpected control-phase response End { id: 1 }"
    );
    let name = "a\"b".to_string();
    assert_eq!(
        created(&name, Response::Accepted { id: 3 }).err().unwrap().message(),
        "Create \"a\\\"b\": unexpected response Ok { id: 3 }"
    );
    let mut heartbeat = Heartbeat::begin(1);
    assert_eq!(
        heartbeat.heard(0, Response::End { id: 2 }).err().unwrap().message(),
        "unexpected held-connection heartbeat response End { id: 2 }"
    );
}

#[test]
fn crash_probes_are_appended_durably() {
    assert_eq!(crash_name(7), "crash-7");
    let name = crash_name(7);
    let mut ledger = Ledger::new(1, 16, Durability::Durable);
    for sequence in 0..PROBES {
        ledger.issue(0, sequence);
        let request = crash_append(sequence, &name, 16);
        assert_eq!(request.id(), APPEND_BASE + sequence);
        crash_acknowledged(&mut ledger, sequence, ack(request.id(), sequence + 1)).unwrap();
    }
    ledger.issue(0, 99);
    assert_eq!(
        crash_acknowledged(&mut ledger, PROBES, Response::Pong { id: 1 }).err().unwrap().message(),
        "durable crash probe append: Pong { id: 1 }"
    );
    let unsynced = Response::Ack { id: 1, versions: vec![33], synced: 32 };
    assert!(crash_acknowledged(&mut ledger, PROBES, unsynced).is_err());
}

#[test]
fn churn_opens_a_stream_and_closes_it() {
    assert_eq!(
        churn_subscription(&names(), 3),
        Request::Subscribe {
            id: 123,
            log: "two".to_string(),
            from: 0,
            mode: Mode::Records,
            credit: 0
        }
    );
    assert_eq!(churn_cancellation(), Request::Cancel { id: 123 });
    assert!(churn_closed(Response::End { id: 123 }).is_ok());
    assert_eq!(
        churn_closed(Response::Pong { id: 1 }).err().unwrap().message(),
        "churn Cancel: Pong { id: 1 }"
    );
    assert_eq!(
        replay_closed(Response::Pong { id: 1 }).err().unwrap().message(),
        "replay Cancel: Pong { id: 1 }"
    );
}

#[test]
fn the_isolation_probe_tells_what_went_wrong() {
    let frame = |id: u64| Response::End { id };
    assert!(matches!(Stage::Quiet.todo(), Todo::Quiet(QUIET)));
    assert_eq!(
        Stage::Quiet.step(Came::Frame(frame(1)), 16).err().unwrap().message(),
        "BACKPRESSURE FAILURE: frame after one-record grant was exhausted: End { id: 1 }"
    );
    assert_eq!(
        Stage::Resume.step(Came::Frame(frame(1)), 16).err().unwrap().message(),
        "stopped-credit stream failed its one-record resume: End { id: 1 }"
    );
    assert_eq!(
        Stage::Close.step(Came::Frame(frame(1)), 16).err().unwrap().message(),
        "stopped-credit Cancel: End { id: 1 }"
    );
    assert_eq!(
        Stage::Resume.step(Came::TimedOut, 16).err().unwrap().message(),
        "BACKPRESSURE FAILURE: stopped-credit subscriber did not resume"
    );
    assert_eq!(
        Stage::Load.step(Came::Failed(Fault::LoadTimeout), 16).err().unwrap().message(),
        "BACKPRESSURE ISOLATION FAILED: load setup or completion exceeded its bounded deadline"
    );
    let resumed = Response::Records {
        id: STALLED,
        records: vec![Record { version: 1, patch: patch(0, 16) }],
    };
    assert_eq!(Stage::Resume.step(Came::Frame(resumed), 16).unwrap(), Stage::Heartbeat);
}

#[test]
fn cancelling_takes_the_ends_it_waits_for() {
    let (mut cancelling, requests) = Cancelling::begin(&plan());
    assert_eq!(requests.len(), 6);
    assert_eq!(requests[5].1, Request::Cancel { id: 6 });
    let mut ledger = Ledger::new(2, 32, Durability::Durable);
    cancelling.heard(&mut ledger, Response::End { id: 6 }).unwrap();
    assert_eq!(
        cancelling.heard(&mut ledger, Response::End { id: 6 }).err().unwrap().message(),
        "unexpected cancel response End { id: 6 }"
    );
    assert!(!cancelling.done());
}

#[test]
fn a_replay_takes_records_only() {
    let mut ledger = Ledger::new(2, 32, Durability::Durable);
    let requests = replay(&mut ledger, &names()).unwrap();
    assert_eq!(requests.len(), 2);
    assert_eq!(requests[1].id(), 2);
    assert_eq!(
        replay_heard(&mut ledger, Response::View { id: 1, version: 2, value: Json::Null })
            .err()
            .unwrap()
            .message(),
        "DURABLE REPLAY FAILED: View { id: 1, version: 2, value: Null }"
    );
    assert_eq!(replay_heard(&mut ledger, Response::Pong { id: 1 }).unwrap(), None);
}
