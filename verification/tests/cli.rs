//! The command line client.

use lug::client::cli::{
    appended, bad_line, blank, body, connect_failure, created, deadline, done, failure, finish,
    gap_notice, paint, table, transport, Color, Finish, Output, SECOND,
};
use lug::client::error::Error;
use lug::client::hub::Ack;
use lug::client::sub::Event;
use lug::client::transport::Transport;
use lug::client::view::View;
use lug::json::{Json, Number};
use lug::proto::{Code, LogInfo, Record};

fn info(name: &str, reducible: bool, version: u64) -> LogInfo {
    LogInfo { name: name.to_string(), reducible, version, oldest: 1, subscribers: 2 }
}

#[test]
fn logs_are_listed_in_a_table() {
    let lines = table(&vec![info("log", true, 5), info("a longer name", false, 12)]);
    assert_eq!(lines.len(), 3);
    assert_eq!(
        lines[0],
        format!("{:<13}  {:>9}  {:>7}  {:>6}  {:>4}", "NAME", "REDUCIBLE", "VERSION", "OLDEST", "SUBS")
    );
    assert_eq!(
        lines[1],
        format!("{:<13}  {:>9}  {:>7}  {:>6}  {:>4}", "log", true, 5, 1, 2)
    );
    assert!(lines[2].starts_with("a longer name      false"));
    assert_eq!(table(&Vec::new()), vec!["no logs".to_string()]);
}

#[test]
fn successes_are_told() {
    assert_eq!(created(&info("notes", true, 0)), "created notes (reducible, version 0)");
    assert_eq!(created(&info("notes", false, 3)), "created notes (plain, version 3)");
    let ack = |versions: Vec<u64>| Ack { versions, synced: 0 };
    assert_eq!(appended(1, &ack(vec![4])), "appended 1 patch through version 4");
    assert_eq!(appended(2, &ack(vec![4, 5])), "appended 2 patches through version 5");
    assert_eq!(appended(2, &ack(Vec::new())), "appended 2, nothing changed");
}

#[test]
fn failures_are_told() {
    let refused = Error::Server {
        id: 1,
        code: Code::NoSuchLog,
        message: "no log absent".to_string(),
    };
    assert_eq!(
        failure("read", &refused),
        "read failed: server refused request 1: NoSuchLog: no log absent"
    );
    let lost = Error::Connect { target: "t".to_string(), reason: "refused".to_string() };
    assert!(connect_failure(&lost, "/run/lug.sock").contains("no daemon at /run/lug.sock"));
    assert_eq!(bad_line(0, "eof"), "line 1: not valid JSON: eof");
    assert!(blank("  \t\r\n"));
    assert!(!blank(" x "));
}

#[test]
fn transports_and_deadlines() {
    match transport(Some("http://h"), Some(" secret\n"), "/s") {
        Transport::Http { base, token } => assert_eq!((base.as_str(), token.as_str()), ("http://h", "secret")),
        Transport::Unix(_) => panic!("an origin was given"),
    }
    match transport(None, Some("t"), "/s") {
        Transport::Unix(path) => assert_eq!(path, "/s"),
        Transport::Http { .. } => panic!("no origin was given"),
    }
    assert_eq!(deadline(0), SECOND);
    assert_eq!(deadline(5), 5 * SECOND);
    assert_eq!(deadline(u64::MAX), u64::MAX);
}

#[test]
fn colour_is_for_terminals() {
    assert!(paint(Color::Always, false, true, Some("dumb")));
    assert!(!paint(Color::Never, true, false, None));
    assert!(paint(Color::Auto, true, false, Some("xterm")));
    assert!(!paint(Color::Auto, true, true, None));
    assert!(!paint(Color::Auto, true, false, Some("dumb")));
    assert!(!paint(Color::Auto, false, false, None));
    let plain = Output { json: false, color: false };
    let vivid = Output { json: false, color: true };
    assert_eq!(plain.bold("x"), "x");
    assert_eq!(vivid.bold("x"), "\u{1b}[1mx\u{1b}[0m");
    assert!(vivid.pretty());
    assert!(!Output { json: true, color: true }.pretty());
}

#[test]
fn a_tail_that_does_not_follow_ends_at_the_current_version() {
    let logs = vec![info("a", true, 3), info("b", true, 7)];
    assert_eq!(finish(&logs, "b", 2).unwrap(), Finish::At(7));
    assert_eq!(finish(&logs, "b", 7).unwrap(), Finish::Now);
    assert_eq!(finish(&logs, "c", 0).unwrap_err(), "no log named c");
    let record = |version: u64| Event::Record(Record { version, patch: Json::Null });
    assert!(!done(Some(7), &record(6)));
    assert!(done(Some(7), &record(7)));
    assert!(done(Some(7), &Event::Gap { from: 1, to: 9 }));
    assert!(!done(None, &record(7)));
    assert_eq!(gap_notice(2, 5), "gap, versions 2..5 were reclaimed by the server");
}

#[test]
fn the_root_of_a_view_is_what_is_printed() {
    let root = Json::Object(vec![("k".to_string(), Json::Number(Number::Unsigned(1)))]);
    let wrapped = Json::Object(vec![
        ("root".to_string(), root.copy()),
        ("version".to_string(), Json::Number(Number::Unsigned(4))),
    ]);
    assert_eq!(body(&View { version: 4, value: wrapped }), root);
    assert_eq!(body(&View { version: 4, value: root.copy() }), root);
    assert_eq!(body(&View { version: 4, value: Json::Null }), Json::Null);
}
