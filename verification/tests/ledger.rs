//! The ledger that a load run is held against.

use lug::json::Json;
use lug::load::check::{patch, violation, Ledger, Violation};
use lug::proto::{Durability, Record};

fn fixture() -> Ledger {
    let mut l = Ledger::new(1, 32, Durability::Durable);
    l.issue(0, 10);
    l.issue(0, 20);
    l.subscribe(10, 0, 0, 2).unwrap();
    l.subscribe(11, 0, 0, 2).unwrap();
    l
}

fn record(version: u64, sequence: u64) -> Record {
    Record { version, patch: patch(sequence, 32) }
}

#[test]
fn records_can_race_ack_and_subscribers_must_agree() {
    let mut l = fixture();
    l.records(10, &[record(1, 1), record(2, 0)]).unwrap();
    l.ack(0, &[2], 2).unwrap();
    l.ack(1, &[1], 2).unwrap();
    assert!(!l.complete());
    l.records(11, &[record(1, 1), record(2, 0)]).unwrap();
    l.finish().unwrap();
    l.replay();
    l.subscribe(12, 0, 0, 2).unwrap();
    l.records(12, &[record(1, 1), record(2, 0)]).unwrap();
    l.finish().unwrap();
}

#[test]
fn reject_gap_duplicate_wrong_order_and_lost_ack() {
    assert!(fixture().records(10, &[record(2, 0)]).is_err());
    assert!(fixture()
        .records(10, &[record(1, 0), record(1, 0)])
        .is_err());
    let mut l = fixture();
    l.records(10, &[record(1, 0)]).unwrap();
    assert!(l.records(11, &[record(1, 1)]).is_err());
    assert!(fixture().finish().is_err());
}

#[test]
fn reject_duplicate_payload_durability_lie_and_credit_overrun() {
    let mut l = fixture();
    l.ack(0, &[1], 1).unwrap();
    assert!(l.ack(0, &[1], 1).is_err());
    assert!(l.records(10, &[record(1, 0), record(2, 0)]).is_err());
    assert!(fixture().ack(0, &[1], 0).is_err());
    let mut l = fixture();
    l.subscribe(20, 0, 0, 0).unwrap();
    assert!(l.records(20, &[record(1, 0)]).is_err());
}

#[test]
fn ack_does_not_excuse_missing_delivery_or_changed_payload() {
    let mut l = fixture();
    l.ack(0, &[1], 1).unwrap();
    l.ack(1, &[2], 2).unwrap();
    l.records(10, &[record(1, 0), record(2, 1)]).unwrap();
    l.records(11, &[record(1, 0)]).unwrap();
    assert!(l.finish().is_err());
    let corrupt = Record {
        version: 2,
        patch: Json::Text("0000000000000001xxxxxxxxxxxxxxxy".to_string()),
    };
    assert!(l.records(11, &[corrupt]).is_err());
}

#[test]
fn a_payload_is_its_number_and_padding() {
    assert_eq!(patch(0xbeef, 18), Json::Text("000000000000beefxx".to_string()));
    assert_eq!(patch(0, 16), Json::Text("0000000000000000".to_string()));
}

#[test]
fn every_violation_is_told_apart() {
    let text = |l: Ledger, r: Result<Vec<u64>, Violation>| {
        drop(l);
        r.unwrap_err()
    };
    let mut l = fixture();
    let r = l.records(99, &[record(1, 0)]);
    assert_eq!(text(l, r), Violation::RecordsUnknown { id: 99 });
    let mut l = fixture();
    let r = l.records(10, &[record(2, 0)]);
    assert_eq!(text(l, r), Violation::NonContiguous { id: 10, expected: 1, version: 2 });
    let mut l = fixture();
    let r = l.records(10, &[Record { version: 1, patch: Json::Null }]);
    assert_eq!(text(l, r), Violation::NotText { log: 0, version: 1 });
    let mut l = fixture();
    let r = l.records(10, &[Record { version: 1, patch: Json::Text("x".to_string()) }]);
    assert_eq!(text(l, r), Violation::PayloadChanged { log: 0, version: 1 });
    let mut l = fixture();
    let odd = "zzzzzzzzzzzzzzzzxxxxxxxxxxxxxxxx".to_string();
    let r = l.records(10, &[Record { version: 1, patch: Json::Text(odd) }]);
    assert_eq!(text(l, r), Violation::NoSequence { log: 0, version: 1 });
    let mut l = fixture();
    let r = l.records(10, &[record(1, 7)]);
    assert_eq!(text(l, r), Violation::Unissued { log: 0, version: 1, sequence: 7 });
    let mut l = fixture();
    let r = l.records(10, &[record(1, 0), record(2, 0)]);
    assert_eq!(text(l, r), Violation::DuplicateAppend { sequence: 0, before: 1, version: 2 });
    let mut l = fixture();
    l.records(10, &[record(1, 0)]).unwrap();
    let r = l.records(11, &[record(1, 1)]);
    assert_eq!(
        text(l, r),
        Violation::OrderMismatch { log: 0, version: 1, before: 0, sequence: 1 }
    );
    let mut l = fixture();
    l.subscribe(20, 0, 0, 0).unwrap();
    let r = l.records(20, &[record(1, 0)]);
    assert_eq!(text(l, r), Violation::NoCredit { id: 20, version: 1 });

    let mut l = Ledger::new(2, 32, Durability::Written);
    l.issue(1, 0);
    l.subscribe(1, 0, 0, 5).unwrap();
    let r = l.records(1, &[record(1, 0)]);
    assert_eq!(text(l, r), Violation::WrongLog { sequence: 0, owner: 1, log: 0 });

    assert_eq!(fixture().subscribe(10, 0, 0, 1), Err(Violation::DuplicateStream { id: 10 }));
    assert_eq!(fixture().grant(99, 1), Err(Violation::CreditUnknown { id: 99 }));
    assert_eq!(fixture().ack(0, &[0], 0), Err(Violation::VersionZero { log: 0 }));
    assert_eq!(fixture().ack(9, &[1], 1), Err(Violation::AckUnissued { sequence: 9 }));
    assert_eq!(
        fixture().ack(0, &[1, 2], 2),
        Err(Violation::NotOneVersion { sequence: 0, versions: vec![1, 2] })
    );
    assert_eq!(
        fixture().ack(0, &[3], 2),
        Err(Violation::NotSynced { sequence: 0, synced: 2, version: 3 })
    );
    let mut l = fixture();
    l.ack(0, &[1], 1).unwrap();
    assert_eq!(l.ack(0, &[1], 1), Err(Violation::DuplicateAck { sequence: 0 }));
    assert_eq!(
        fixture().finish(),
        Err(Violation::AckLoss { issued: 2, acknowledged: 0 })
    );
    let mut l = Ledger::new(1, 32, Durability::Written);
    l.issue(0, 0);
    l.subscribe(1, 0, 0, 5).unwrap();
    l.ack(0, &[1], 0).unwrap();
    assert_eq!(
        l.finish(),
        Err(Violation::SubscriberLoss { id: 1, observed: 0, end: 1 })
    );
    let mut l = Ledger::new(1, 32, Durability::Written);
    l.issue(0, 0);
    l.ack(0, &[2], 0).unwrap();
    assert_eq!(l.finish(), Err(Violation::NotFromOne { log: 0 }));
    assert!(violation(Violation::NotFromOne { log: 3 }).message.contains('3'));
}

#[test]
fn credit_is_used_up_and_granted_again() {
    let mut l = Ledger::new(1, 16, Durability::Memory);
    for n in 0..4 {
        l.issue(0, n);
    }
    l.subscribe(1, 0, 0, 1).unwrap();
    let one = |version: u64, sequence: u64| Record { version, patch: patch(sequence, 16) };
    assert_eq!(l.records(1, &[one(1, 3)]).unwrap(), vec![3]);
    assert!(l.follows(1));
    l.grant(1, 2).unwrap();
    assert_eq!(l.records(1, &[one(2, 2), one(3, 1)]).unwrap(), vec![2, 1]);
    assert!(l.records(1, &[one(4, 0)]).is_err());
}

#[test]
fn a_stream_takes_its_first_credit_and_what_it_was_granted_since() {
    let mut l = Ledger::new(1, 32, Durability::Written);
    for n in 0..5 {
        l.issue(0, n);
    }
    l.subscribe(1, 0, 0, 1).unwrap();
    l.subscribe(2, 0, 0, 0).unwrap();
    l.records(1, &[record(1, 0)]).unwrap();
    l.grant(1, 2).unwrap();
    l.records(1, &[record(2, 1)]).unwrap();
    l.grant(2, 9).unwrap();
    l.records(1, &[record(3, 2)]).unwrap();
    // Three in all, and what the other stream was granted is no use to it.
    assert!(matches!(
        l.records(1, &[record(4, 3)]),
        Err(Violation::NoCredit { id: 1, version: 4 })
    ));
    assert!(matches!(l.grant(3, 1), Err(Violation::CreditUnknown { id: 3 })));
}

#[test]
fn a_replay_has_to_repeat_what_was_bound() {
    let finished = || {
        let mut l = fixture();
        l.records(10, &[record(1, 1), record(2, 0)]).unwrap();
        l.records(11, &[record(1, 1), record(2, 0)]).unwrap();
        l.ack(0, &[2], 2).unwrap();
        l.ack(1, &[1], 2).unwrap();
        l.finish().unwrap();
        l.replay();
        l.subscribe(10, 0, 0, 9).unwrap();
        l
    };
    let mut l = finished();
    assert!(!l.complete());
    l.records(10, &[record(1, 1)]).unwrap();
    assert!(!l.complete());
    l.records(10, &[record(2, 0)]).unwrap();
    assert!(l.complete());
    l.finish().unwrap();
    assert!(l.records(10, &[record(3, 0)]).is_err());
    assert!(matches!(
        finished().records(10, &[record(1, 0)]),
        Err(Violation::OrderMismatch { version: 1, .. })
    ));
}

#[test]
fn a_stream_cannot_go_on_after_the_last_version() {
    let mut l = Ledger::new(1, 32, Durability::Written);
    l.issue(0, 0);
    l.subscribe(1, 0, u64::MAX - 1, 9).unwrap();
    let fault = l.records(1, &[record(u64::MAX, 0)]).unwrap_err();
    assert_eq!(violation(fault).message, "stream 1 was sent the last version there is");
    l.subscribe(2, 0, 0, 9).unwrap();
    assert!(matches!(
        l.records(2, &[record(u64::MAX, 0)]),
        Err(Violation::NonContiguous { id: 2, expected: 1, version: u64::MAX })
    ));
}
