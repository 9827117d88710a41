//! A hub's decisions: multiplexing, pooling, death, credit.

use lug::client::config::{Backoff, Config, Retry};
use lug::client::conn::{handshake, hello, Command, Delivery, Mux, Waiter};
use lug::client::error::Error;
use lug::client::hub::{
    acknowledged, append, created, listing, pong, queued, remaining, retry, settle, viewed,
    Answer, Builder, Queued, Subscribe,
};
use lug::client::pool::{acquire, pick, Acquired, Happened, Next, Supervisor};
use lug::client::sub::{events_of, Event, Polled, Subscription, Yield};
use lug::client::transport::Transport;
use lug::json::{Json, Number};
use lug::proto::{Code, Durability, LogInfo, Mode, Record, Request, Response, VERSION};

fn number(n: u64) -> Json {
    Json::Number(Number::Unsigned(n))
}

fn view(id: u64, at: u64) -> Response {
    Response::View { id, version: at, value: number(at) }
}

#[test]
fn many_calls_share_one_connection_and_come_back_matched() {
    let mut mux: Mux<u64, ()> = Mux::new();
    for version in 1..=200u64 {
        mux.accept(Command::Call {
            req: Request::Read { id: version + 1000, log: "log".to_string(), at: Some(version) },
            reply: version,
        });
    }
    // They leave in the order they came.
    for version in 1..=200u64 {
        assert_eq!(mux.next_out().unwrap().id(), version + 1000);
    }
    assert!(!mux.has_pending());
    // And are answered in another.
    for version in (1..=200u64).rev() {
        match mux.deliver(view(version + 1000, version)) {
            Delivery::Reply(caller, Ok(Response::View { version: at, .. })) => {
                assert_eq!(caller, version, "reply landed on the wrong caller");
                assert_eq!(at, version);
            }
            _ => panic!("no reply"),
        }
    }
    assert!(matches!(mux.deliver(view(1001, 1)), Delivery::Unknown));
}

#[test]
fn work_spreads_over_the_pool_by_load() {
    let mut slots = vec![Some(0), Some(0), None, Some(0), Some(0)];
    let mut used = Vec::new();
    for _ in 0..4 {
        let slot = pick(&slots).unwrap();
        slots[slot] = slots[slot].map(|n| n + 1);
        used.push(slot);
    }
    assert_eq!(used, vec![0, 1, 3, 4]);
    assert_eq!(pick(&vec![Some(3), Some(1), Some(2)]), Some(1));
    assert_eq!(pick(&vec![None, None]), None);
}

#[test]
fn a_dead_connection_fails_every_waiter_at_once() {
    let mut mux: Mux<u64, u64> = Mux::new();
    for id in 0..50u64 {
        mux.accept(Command::Call { req: Request::Ping { id }, reply: id });
    }
    mux.accept(Command::Stream { req: Request::Ping { id: 77 }, sink: 7 });
    mux.accept(Command::Forget(3));
    let mut failed = mux.die();
    failed.sort_by_key(|(id, _, _)| *id);
    assert_eq!(failed.len(), 50);
    for (id, waiter, error) in &failed {
        assert!(matches!(error, Error::Disconnected { id: lost } if lost == id));
        match waiter {
            Waiter::Call(caller) => assert_eq!(caller, id),
            Waiter::Stream(sink) => assert_eq!((*sink, *id), (7, 77)),
        }
    }
    assert!(failed.iter().all(|(id, _, _)| *id != 3));
}

#[test]
fn calls_time_out_rather_than_hang() {
    let (result, forget) = settle(5, Answer::TimedOut, 150);
    assert!(matches!(result, Err(Error::Timeout { id: 5, elapsed: 150 })));
    assert!(forget);
    let (result, forget) = settle(5, Answer::Gone, 150);
    assert!(matches!(result, Err(Error::Disconnected { id: 5 })));
    assert!(!forget);
    let (result, forget) = settle(5, Answer::Reply(Ok(Response::Pong { id: 5 })), 1);
    assert!(pong(result.unwrap()).is_ok());
    assert!(!forget);
    assert!(matches!(queued(5, Queued::TimedOut, 9), Err(Error::Timeout { id: 5, elapsed: 9 })));
    assert!(matches!(queued(5, Queued::Gone, 9), Err(Error::Disconnected { id: 5 })));
    assert!(queued(5, Queued::Sent, 9).is_ok());
    assert_eq!(remaining(10, 4), 6);
    assert_eq!(remaining(10, 40), 0);
}

#[test]
fn the_pool_reconnects_and_serves_again() {
    let mut slot = Supervisor::new(Backoff { min: 50, max: 300 });
    assert_eq!(slot.next(Happened::ConnectFailed, false), Next::Wait(50));
    assert_eq!(slot.next(Happened::Waited, false), Next::Dial);
    assert_eq!(slot.next(Happened::ConnectFailed, false), Next::Wait(100));
    assert_eq!(slot.next(Happened::ConnectFailed, false), Next::Wait(200));
    assert_eq!(slot.next(Happened::ConnectFailed, false), Next::Wait(300));
    assert_eq!(slot.next(Happened::ConnectFailed, false), Next::Wait(300));
    assert_eq!(slot.next(Happened::Connected, false), Next::Serve);
    assert_eq!(slot.next(Happened::ConnectionDied, false), Next::Dial);
    assert_eq!(slot.next(Happened::ConnectFailed, false), Next::Wait(50));
    assert_eq!(slot.next(Happened::Waited, true), Next::Stop);
    assert_eq!(slot.next(Happened::Unwanted, false), Next::Stop);
    assert_eq!(acquire(&vec![None, Some(2)], true), Acquired::Slot(1));
    assert_eq!(acquire(&vec![None], true), Acquired::Closed);
    assert_eq!(acquire(&vec![None], false), Acquired::Wait);
}

#[test]
fn retries_are_opt_in() {
    let lost = Error::Disconnected { id: 1 };
    assert_eq!(retry(Retry::default().attempts(), &lost), None);
    let policy = Retry::idempotent(2);
    let left = retry(policy.attempts(), &lost).unwrap();
    let left = retry(left, &lost).unwrap();
    assert_eq!(retry(left, &lost), None);
    let refused = Error::Server { id: 1, code: Code::Rejected, message: String::new() };
    assert_eq!(retry(5, &refused), None);
    for code in [Code::Storage, Code::Internal, Code::Backpressure] {
        assert!(Error::Server { id: 1, code, message: String::new() }.is_transient());
    }
}

#[test]
fn appends_and_reads_round_trip() {
    let info = LogInfo {
        name: "log".to_string(),
        reducible: true,
        version: 2,
        oldest: 0,
        subscribers: 0,
    };
    let logs = Response::Logs { id: 1, logs: vec![info.clone()] };
    assert_eq!(created(logs.clone()).unwrap(), info);
    assert_eq!(listing(logs).unwrap(), vec![info]);
    let empty = created(Response::Logs { id: 1, logs: vec![] }).unwrap_err();
    assert!(empty.message().contains("create answered with no log"));
    let ack = acknowledged(Response::Ack { id: 1, versions: vec![1, 2], synced: 2 }).unwrap();
    assert_eq!(ack.versions, vec![1, 2]);
    assert_eq!(viewed(view(1, 2)).unwrap().version, 2);
    let odd = viewed(Response::Pong { id: 8 }).unwrap_err();
    assert!(matches!(&odd, Error::Protocol { id: 8, detail } if detail.starts_with("expected view, got ")));
    assert!(odd.message().contains("Pong"));
    assert!(pong(Response::End { id: 1 }).is_err());
    assert!(acknowledged(Response::End { id: 1 }).is_err());
    assert!(listing(Response::End { id: 1 }).is_err());
    assert_eq!(
        append(1, "log".to_string(), vec![number(1)]),
        Request::Append {
            id: 1,
            log: "log".to_string(),
            patches: vec![number(1)],
            durability: Durability::Written
        }
    );
}

fn records(id: u64, count: u64) -> Response {
    Response::Records {
        id,
        records: (1..=count).map(|version| Record { version, patch: number(version) }).collect(),
    }
}

#[test]
fn credit_follows_the_consumer() {
    let window = 4;
    let mut stream = Subscription::open(9, window);
    assert_eq!(stream.capacity(), 4);
    // A stalled consumer grants nothing.
    assert!(matches!(stream.step(Polled::Pending), Yield::Pending));
    assert_eq!(stream.maybe_grant(), None);
    // Half a window, drained, is granted again.
    assert!(matches!(stream.step(Polled::Frame(records(9, 1))), Yield::Item(Ok(_))));
    assert_eq!(stream.maybe_grant(), None);
    assert!(matches!(stream.step(Polled::Frame(records(9, 2))), Yield::Item(Ok(_))));
    assert_eq!(stream.maybe_grant(), Some(Request::Credit { id: 9, grant: 3 }));
    // A queue that is full keeps the count for the next time.
    stream.granted(3, false);
    assert_eq!(stream.maybe_grant(), Some(Request::Credit { id: 9, grant: 3 }));
    stream.granted(3, true);
    assert_eq!(stream.maybe_grant(), None);
    // Dropping the subscription cancels it at the server.
    assert_eq!(stream.farewell(), Some(Request::Cancel { id: 9 }));
    assert_eq!(stream.grant(0), None);
    assert_eq!(stream.grant(5), Some(Request::Credit { id: 9, grant: 5 }));
    assert_eq!(Subscription::open(1, 0).capacity(), 1);
    assert_eq!(Subscription::open(1, 1_000_000).capacity(), 1_000_000);
}

#[test]
fn a_subscription_ends_when_the_server_says_so() {
    let mut stream = Subscription::open(9, 8);
    assert!(matches!(stream.step(Polled::Frame(Response::Accepted { id: 9 })), Yield::Again));
    let first = stream.step(Polled::Frame(records(9, 1)));
    assert!(matches!(first, Yield::Item(Ok(Response::Records { .. }))));
    assert!(matches!(stream.step(Polled::Frame(Response::End { id: 9 })), Yield::End));
    assert!(matches!(stream.step(Polled::Frame(records(9, 1))), Yield::End));
    assert_eq!(stream.farewell(), None);
}

#[test]
fn subscribing_to_a_missing_log_fails_on_the_stream() {
    let mut mux: Mux<(), u64> = Mux::new();
    mux.accept(Command::Stream {
        req: Subscribe::records().request(4, "absent".to_string(), 256),
        sink: 0,
    });
    let refusal = Response::Error {
        id: 4,
        code: Code::NoSuchLog,
        message: "no log absent".to_string(),
    };
    match mux.deliver(refusal) {
        Delivery::Push(4, Err(e), true) => {
            assert!(matches!(e, Error::Server { code: Code::NoSuchLog, .. }));
            let mut stream = Subscription::open(4, 256);
            assert!(matches!(
                stream.step(Polled::Failed(e)),
                Yield::Item(Err(Error::Server { .. }))
            ));
        }
        _ => panic!("not pushed"),
    }
    assert!(!mux.pushed(4, true, true));
    assert!(mux.sink(4).is_none());
}

#[test]
fn a_stream_that_overruns_is_dropped_alone() {
    let mut mux: Mux<u64, u64> = Mux::new();
    mux.accept(Command::Stream { req: Request::Ping { id: 1 }, sink: 10 });
    mux.accept(Command::Call { req: Request::Ping { id: 2 }, reply: 20 });
    assert_eq!(mux.sink(1), Some(&10));
    assert!(mux.pushed(1, false, false));
    assert!(mux.sink(1).is_none());
    assert!(matches!(mux.deliver(Response::Pong { id: 2 }), Delivery::Reply(20, Ok(_))));
    let mut stream = Subscription::open(1, 1);
    assert!(matches!(
        stream.step(Polled::Closed(true)),
        Yield::Item(Err(Error::Overrun { id: 1 }))
    ));
    let mut other = Subscription::open(2, 1);
    assert!(matches!(
        other.step(Polled::Closed(false)),
        Yield::Item(Err(Error::Disconnected { id: 2 }))
    ));
}

#[test]
fn commands_wait_for_room() {
    let mut mux: Mux<(), ()> = Mux::new();
    assert!(mux.has_room(1));
    mux.accept(Command::Fire(Request::Cancel { id: 1 }));
    assert!(!mux.has_room(1));
    assert_eq!(mux.next_out(), Some(Request::Cancel { id: 1 }));
    assert_eq!(mux.next_out(), None);
}

#[test]
fn connections_are_greeted() {
    assert_eq!(hello(3), Request::Hello { id: 3, version: VERSION });
    let welcome = Response::Welcome { id: 3, version: VERSION, max_frame: 1, session: None };
    assert_eq!(handshake(3, Some(welcome)).unwrap(), VERSION);
    assert!(handshake(3, None).is_err());
    assert!(handshake(3, Some(Response::Pong { id: 3 })).is_err());
}

#[test]
fn builders_have_sane_defaults() {
    let cfg = Config::for_machine(None);
    assert_eq!(cfg.connections, 4);
    assert_eq!(cfg.credit, 256);
    let built = Builder::new(Transport::unix("/run/lug.sock".to_string()), cfg)
        .connections(0)
        .timeout(5)
        .credit(0)
        .queue(0);
    assert_eq!(built.cfg.connections, 1);
    assert_eq!(built.cfg.timeout, 5);
    assert!(built.transport.wants_handshake());
    let http = Transport::http("http://h".to_string(), "t".to_string());
    assert!(!http.wants_handshake());
    assert_eq!(http.target(), "http://h");
    let request = Subscribe::reducible().from(3).request(1, "l".to_string(), 0);
    assert_eq!(
        request,
        Request::Subscribe { id: 1, log: "l".to_string(), from: 3, mode: Mode::Reducible, credit: 1 }
    );
}

#[test]
fn frames_become_events() {
    let events = events_of(records(1, 2));
    assert_eq!(events.len(), 2);
    assert!(matches!(&events[1], Event::Record(r) if r.version == 2));
    assert_eq!(
        events_of(Response::Gap { id: 1, from: 2, to: 5 }),
        vec![Event::Gap { from: 2, to: 5 }]
    );
    assert!(events_of(Response::Pong { id: 1 }).is_empty());
}

#[test]
fn over_its_life_a_subscription_grants_what_it_yielded() {
    let mut stream = Subscription::open(3, 6);
    let (mut yielded, mut granted) = (0, 0);
    for count in [1, 0, 2, 5, 1, 1, 1] {
        let taken = stream.step(Polled::Frame(records(3, count)));
        assert!(matches!(taken, Yield::Item(Ok(Response::Records { .. }))));
        yielded += count as u32;
        if let Some(Request::Credit { grant, .. }) = stream.maybe_grant() {
            assert!(grant >= 3);
            stream.granted(grant, true);
            granted += grant;
        }
        assert!(granted <= yielded);
        assert_eq!(granted + stream.drained, yielded);
    }
    assert!(matches!(stream.step(Polled::Closed(false)), Yield::Item(Err(_))));
    assert!(matches!(stream.step(Polled::Frame(records(3, 1))), Yield::End));
    assert!(matches!(stream.step(Polled::Pending), Yield::End));
}
