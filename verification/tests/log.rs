//! Log invariants, exercised against storage that can be made to fail.

use bytes::Bytes;
use lug::cavlc::mvcc::{Snapshot, Store};
use lug::cavlc::patch::Patch;
use lug::cavlc::value::Value;
use lug::engine::log::{flush, passed_on, settle, Coded, Durability, Frontier, Log, Opening};
use lug::engine::reducible::{Noop, Overflow, Reducible, Refusal, Tick, Versioned};
use lug::engine::storage::{Discard, Record, Recovered, Storage};
use lug::engine::{Error, Version};
use lug::json::{Json, Number};
use std::sync::atomic::{AtomicBool, AtomicUsize, Ordering::Relaxed};
use std::sync::Arc;

#[derive(Clone, Default)]
struct Counter(Arc<AtomicUsize>);
impl Counter {
    fn bump(&self) {
        self.0.fetch_add(1, Relaxed);
    }
    fn get(&self) -> usize {
        self.0.load(Relaxed)
    }
}

#[derive(Clone, Default)]
struct Switch(Arc<AtomicBool>);
impl Switch {
    fn set(&self, on: bool) {
        self.0.store(on, Relaxed);
    }
    fn on(&self) -> bool {
        self.0.load(Relaxed)
    }
}

/// In-memory storage with a switch for making the next write fail, and a
/// count of syncs so group commit can be observed rather than assumed.
#[derive(Default)]
struct Mem {
    records: Vec<(Version, Bytes)>,
    header: Option<Snapshot>,
    oldest: Version,
    fail: Switch,
    fail_sync: Switch,
    syncs: Counter,
    writes: Counter,
}

#[derive(Debug)]
struct Refused;

impl Mem {
    fn copies(&self, after: Version) -> Vec<Record> {
        self.records
            .iter()
            .filter(|(version, _)| *version > after)
            .map(|(version, patch)| Record { version: *version, patch: patch.clone() })
            .collect()
    }
}

impl Storage for Mem {
    type View = Snapshot;
    type Error = Refused;

    fn append(&mut self, records: &[Record]) -> Result<(), Refused> {
        if self.fail.on() {
            return Err(Refused);
        }
        self.writes.bump();
        for record in records {
            self.records.push((record.version, record.patch.clone()));
        }
        Ok(())
    }

    fn write_header(&mut self, view: &Snapshot) -> Result<(), Refused> {
        if self.fail.on() {
            return Err(Refused);
        }
        self.oldest = view.version();
        let floor = view.version();
        self.records.retain(|(version, _)| *version > floor);
        self.header = Some(view.clone());
        Ok(())
    }

    fn sync(&mut self) -> Result<(), Refused> {
        if self.fail.on() || self.fail_sync.on() {
            return Err(Refused);
        }
        self.syncs.bump();
        Ok(())
    }

    fn load(&mut self) -> Result<Recovered<Snapshot>, Refused> {
        let floor = self.header.as_ref().map(|h| h.version());
        let mut tail = self.copies(0);
        if let Some(floor) = floor {
            tail.retain(|record| record.version > floor);
        }
        Ok(Recovered { header: self.header.clone(), tail })
    }

    fn read_after(&self, after: Version, limit: usize) -> Result<Vec<Record>, Refused> {
        let mut records = self.copies(after);
        records.truncate(limit);
        Ok(records)
    }

    fn oldest(&self) -> Version {
        self.oldest
    }
}

fn of_serde(value: &serde_json::Value) -> Json {
    match value {
        serde_json::Value::Null => Json::Null,
        serde_json::Value::Bool(b) => Json::Bool(*b),
        serde_json::Value::Number(n) => Json::Number(Number::Unsigned(n.as_u64().unwrap())),
        serde_json::Value::String(s) => Json::Text(s.clone()),
        serde_json::Value::Array(items) => Json::Array(items.iter().map(of_serde).collect()),
        serde_json::Value::Object(map) => {
            Json::Object(map.iter().map(|(k, v)| (k.clone(), of_serde(v))).collect())
        }
    }
}

fn decode(bytes: &[u8]) -> Result<Patch, String> {
    let value: serde_json::Value = serde_json::from_slice(bytes).map_err(|e| e.to_string())?;
    Patch::from_json(&of_serde(&value))
}

fn patch(json: &str) -> Coded<Patch, String> {
    Coded {
        patch: decode(json.as_bytes()).expect("valid patch"),
        bytes: Ok(json.as_bytes().to_vec()),
    }
}

fn create(key: &str, value: i64) -> Coded<Patch, String> {
    patch(&format!(r#"{{"Create":{{"{key}":{value}}}}}"#))
}

type Failure = Error<lug::cavlc::error::Error, Refused, String>;

fn open(data: Store, storage: Mem) -> Result<Log<Store, Mem>, Failure> {
    let opening = Log::open::<String>(data, storage)?;
    let patches = opening.records().iter().map(|r| decode(&r.patch)).collect();
    opening.replay(patches)
}

fn number(n: u64) -> Json {
    Json::Number(Number::Unsigned(n))
}

#[test]
fn each_append_mints_one_contiguous_version() {
    let mut log = open(Store::new(), Mem::default()).unwrap();
    let views = log
        .append(vec![create("a", 1), create("b", 2), create("c", 3)], Durability::Durable)
        .unwrap();

    let versions: Vec<_> = views.iter().map(|v| v.version()).collect();
    assert_eq!(versions, vec![1, 2, 3]);
    assert_eq!(log.watermark(), 3);
}

#[test]
fn a_batch_costs_one_write_and_one_sync() {
    let storage = Mem::default();
    let (writes, syncs) = (storage.writes.clone(), storage.syncs.clone());
    let mut log = open(Store::new(), storage).unwrap();

    let batch: Vec<_> = (0..64).map(|i| create(&format!("k{i}"), i)).collect();
    log.append(batch, Durability::Durable).unwrap();

    assert_eq!(log.watermark(), 64);
    assert_eq!(writes.get(), 1, "64 patches must not cost 64 writes");
    assert_eq!(syncs.get(), 1, "64 patches must not cost 64 syncs");
}

#[test]
fn written_durability_does_not_sync() {
    let storage = Mem::default();
    let syncs = storage.syncs.clone();
    let mut log = open(Store::new(), storage).unwrap();

    log.append(vec![create("a", 1)], Durability::Written).unwrap();

    assert_eq!(syncs.get(), 0);
    assert_eq!(log.watermark(), 1, "observable without being durable");
    assert_eq!(log.synced(), 0, "but not claimed as durable");
}

#[test]
fn a_failed_write_leaves_no_observable_version() {
    let storage = Mem::default();
    let fail = storage.fail.clone();
    let mut log = open(Store::new(), storage).unwrap();
    log.append(vec![create("a", 1)], Durability::Durable).unwrap();

    fail.set(true);
    let err = log.append(vec![create("b", 2)], Durability::Durable).err().unwrap();

    assert!(matches!(err, Error::Storage(_)));
    assert_eq!(log.watermark(), 1, "memory must not lead the log");
    assert_eq!(log.view().version(), 1, "the fold was unwound");
    assert!(log.view().view.root().get("b").is_none());
}

#[test]
fn a_rejected_patch_aborts_the_whole_batch() {
    let mut log = open(Store::new(), Mem::default()).unwrap();
    log.append(vec![create("a", 1)], Durability::Durable).unwrap();

    // The second Create collides, so nothing in this batch may land.
    let err = log
        .append(vec![create("b", 2), create("a", 9), create("c", 3)], Durability::Durable)
        .err()
        .unwrap();

    assert!(matches!(err, Error::Data(_)));
    assert_eq!(log.watermark(), 1);
    assert!(log.view().view.root().get("b").is_none());
}

#[test]
fn an_identity_patch_mints_no_version_and_writes_no_record() {
    let storage = Mem::default();
    let writes = storage.writes.clone();
    let mut log = open(Store::new(), storage).unwrap();
    log.append(vec![create("a", 1)], Durability::Durable).unwrap();

    let before = log.watermark();
    log.append(vec![patch("{}")], Durability::Durable).unwrap();

    assert_eq!(log.watermark(), before);
    assert_eq!(writes.get(), 1, "an empty patch must not reach storage");
}

#[test]
fn recovery_replays_records() {
    let storage = Mem::default();
    let mut log = open(Store::new(), storage).unwrap();
    log.append(vec![create("a", 1), create("b", 2)], Durability::Durable).unwrap();
    let (_data, storage) = log.into_parts();

    let recovered = open(Store::new(), storage).unwrap();

    assert_eq!(recovered.watermark(), 2);
    assert_eq!(recovered.view().view.root().get("b").unwrap().to_json(), number(2));
}

#[test]
fn a_checkpoint_replaces_the_records_it_covers() {
    let mut log = open(Store::new(), Mem::default()).unwrap();
    log.append(vec![create("a", 1), create("b", 2)], Durability::Durable).unwrap();
    log.checkpoint::<String>().unwrap();
    log.append(vec![create("c", 3)], Durability::Durable).unwrap();
    let (_data, storage) = log.into_parts();

    // Version 0 here is deliberately the wrong zero value. If recovery
    // replayed from it instead of adopting the header, `a` would be missing.
    let recovered = open(Store::new(), storage).unwrap();

    assert_eq!(recovered.watermark(), 3);
    let root = recovered.view();
    let root = root.view.root();
    assert_eq!(root.get("a").unwrap().to_json(), number(1));
    assert_eq!(root.get("c").unwrap().to_json(), number(3));
}

#[test]
fn historical_views_stay_readable() {
    let mut log = open(Store::new(), Mem::default()).unwrap();
    log.append(vec![create("a", 1), create("b", 2)], Durability::Durable).unwrap();

    let old = log.view_at(1).expect("version 1 retained");
    assert_eq!(old.version(), 1);
    assert!(old.view.root().get("b").is_none(), "version 1 predates b");
    assert!(log.view_at(99).is_none());
}

#[test]
fn recovery_gives_back_every_version_it_replays() {
    let mut log = open(Store::new(), Mem::default()).unwrap();
    log.append(vec![create("a", 1)], Durability::Durable).unwrap();
    log.append(vec![create("b", 2), create("c", 3)], Durability::Durable).unwrap();
    assert_eq!(log.view_at(1).unwrap().state(), log.view_at(1).unwrap().view.root().to_json());
    assert!(log.view_at(1).unwrap().view.root().get("b").is_none());
    let (_data, storage) = log.into_parts();

    let recovered = open(Store::new(), storage).unwrap();

    assert_eq!(recovered.view_at(0).unwrap().state(), Json::Object(vec![]));
    assert_eq!(
        recovered.view_at(2).unwrap().state(),
        Json::Object(vec![("a".to_string(), number(1)), ("b".to_string(), number(2))])
    );
    assert_eq!(recovered.view_at(3).unwrap().view.root().get("c").unwrap().to_json(), number(3));
    assert!(recovered.view_at(4).is_none());
}

#[test]
fn an_empty_append_is_a_no_op() {
    let storage = Mem::default();
    let writes = storage.writes.clone();
    let mut log = open(Store::new(), storage).unwrap();

    assert!(log.append::<String>(vec![], Durability::Durable).unwrap().is_empty());
    assert_eq!(writes.get(), 0);
}

#[test]
fn what_cannot_be_written_down_aborts_the_whole_batch() {
    let storage = Mem::default();
    let writes = storage.writes.clone();
    let mut log = open(Store::new(), storage).unwrap();
    let mut bad = create("b", 2);
    bad.bytes = Err("no such encoding".to_string());
    let err = log.append(vec![create("a", 1), bad], Durability::Durable).err().unwrap();
    assert!(matches!(err, Error::Codec(why) if why == "no such encoding"));
    assert_eq!(log.watermark(), 0);
    assert!(log.view().view.root().get("a").is_none());
    assert_eq!(writes.get(), 0);
}

#[test]
fn a_failed_sync_unwinds_and_a_later_sync_moves_the_frontier() {
    let storage = Mem::default();
    let fail = storage.fail.clone();
    let mut log = open(Store::new(), storage).unwrap();
    log.append(vec![create("a", 1)], Durability::Memory).unwrap();
    fail.set(true);
    assert!(matches!(log.sync::<String>(), Err(Error::Storage(_))));
    assert!(matches!(log.checkpoint::<String>(), Err(Error::Storage(_))));
    assert_eq!(log.synced(), 0);
    fail.set(false);
    log.sync::<String>().unwrap();
    assert_eq!(log.synced(), 1);
    assert_eq!(log.view().synced, 1);
    assert_eq!(log.oldest(), 0);
    let records = log.read_after::<String>(0, 10).unwrap();
    assert_eq!(records.len(), 1);
    assert_eq!(records[0].version, 1);
    assert_eq!(&records[0].patch[..], br#"{"Create":{"a":1}}"#);
}

#[test]
fn recovery_refuses_what_does_not_line_up() {
    let mut storage = Mem::default();
    storage.records.push((2, Bytes::from_static(br#"{"Create":{"a":1}}"#)));
    let err = open(Store::new(), storage).err().unwrap();
    assert!(matches!(err, Error::Version { expected: 2, actual: 1 }));

    let mut storage = Mem::default();
    storage.records.push((1, Bytes::from_static(b"{}")));
    let err = open(Store::new(), storage).err().unwrap();
    assert!(matches!(err, Error::Version { expected: 1, actual: 0 }));

    let mut storage = Mem::default();
    storage.records.push((1, Bytes::from_static(b"not json")));
    assert!(matches!(open(Store::new(), storage).err().unwrap(), Error::Codec(_)));

    let mut storage = Mem::default();
    storage.records.push((1, Bytes::from_static(br#"{"Delete":["a"]}"#)));
    assert!(matches!(open(Store::new(), storage).err().unwrap(), Error::Data(_)));
}

#[test]
fn a_plain_log_counts_and_forgets() {
    let opening = Log::open::<String>(Noop::new(), Discard::<Tick>::new()).unwrap();
    assert_eq!(opening.records().len(), 0);
    let mut log = opening.replay::<String>(vec![]).unwrap();
    let line = Coded::<Json, String> { patch: number(1), bytes: Ok(b"1".to_vec()) };
    let other = Coded::<Json, String> { patch: Json::Null, bytes: Ok(b"null".to_vec()) };
    let ticks = log.append(vec![line, other], Durability::Durable).unwrap();
    assert_eq!(ticks.len(), 2);
    assert_eq!(ticks[1].version(), 2);
    assert_eq!(log.watermark(), 2);
    assert_eq!(log.view().state(), Json::Null);
    assert!(log.read_after::<String>(0, 10).unwrap().is_empty());
}

#[test]
fn staged_work_on_a_stale_version_is_refused() {
    let mut noop = Noop::default();
    let mut a = noop.stage();
    let mut b = noop.stage();
    noop.stage_patch(&mut a, &Json::Null).unwrap();
    noop.stage_patch(&mut b, &Json::Null).unwrap();
    assert_eq!(noop.commit(a).unwrap(), Some(Tick(1)));
    assert_eq!(noop.commit(b).unwrap_err(), Refusal::Stale { expected: 0, actual: 1 });
    assert_eq!(noop.view(), Tick(1));
    // Even work that changes nothing.
    let empty = noop.stage();
    noop.apply(&Json::Null).unwrap();
    assert!(noop.commit(empty).is_err());
    assert_eq!(noop.view(), Tick(2));

    let mut store = Store::new();
    let mut a = store.stage();
    let mut b = store.stage();
    store.stage_patch(&mut a, &create("a", 1).patch).unwrap();
    store.stage_patch(&mut b, &create("b", 1).patch).unwrap();
    assert!(store.commit(a).unwrap().is_some());
    assert!(store.commit(b).is_err());
    assert_eq!(Reducible::version(&store), 1);
}

#[test]
fn a_resumed_structure_retains_nothing_below_its_version() {
    let mut noop = Noop::resume(Tick(5)).unwrap();
    assert_eq!(noop.view(), Tick(5));
    assert_eq!(noop.view_at(5), Some(Tick(5)));
    assert_eq!(noop.view_at(3), None);
    noop.apply(&Json::Null).unwrap();
    noop.truncate(3).unwrap();
    assert_eq!(noop.view(), Tick(6));
    noop.truncate(5).unwrap();
    assert_eq!(noop.view(), Tick(5));
    let full = Noop::resume(Tick(u64::MAX)).unwrap();
    let mut staged = full.stage();
    full.stage_patch(&mut staged, &Json::Null).unwrap();
    let mut full = full;
    assert_eq!(full.commit(staged).unwrap_err(), Refusal::Exhausted(Overflow {}));
}

#[test]
fn nothing_is_called_durable_that_was_not_synced() {
    let storage = Mem::default();
    let fail_sync = storage.fail_sync.clone();
    let mut log = open(Store::new(), storage).unwrap();
    log.append(vec![create("a", 1)], Durability::Durable).unwrap();
    fail_sync.set(true);
    let err = log.append(vec![create("b", 2)], Durability::Durable).err().unwrap();
    assert!(matches!(err, Error::Storage(Refused)));
    assert_eq!((log.watermark(), log.synced()), (1, 1));
    assert!(log.view().view.root().get("b").is_none());
    assert!(log.view_at(2).is_none());
    log.append(vec![create("c", 3)], Durability::Written).unwrap();
    assert!(matches!(log.sync::<String>(), Err(Error::Storage(Refused))));
    assert!(matches!(log.checkpoint::<String>(), Err(Error::Storage(Refused))));
    assert_eq!((log.watermark(), log.synced()), (2, 1));
    fail_sync.set(false);
    log.checkpoint::<String>().unwrap();
    assert_eq!((log.watermark(), log.synced()), (2, 2));
}

#[test]
fn answers_of_the_store_settle_an_append() {
    let before = Frontier { watermark: 4, synced: 2 };
    let (r, after) = settle::<Refused>(before, 7, Ok(()), None);
    assert!(r.is_ok());
    assert_eq!(after, Frontier { watermark: 7, synced: 2 });
    let (r, after) = settle::<Refused>(before, 7, Ok(()), Some(Ok(())));
    assert!(r.is_ok());
    assert_eq!(after, Frontier { watermark: 7, synced: 7 });
    let (r, after) = settle(before, 7, Ok(()), Some(Err(Refused)));
    assert!(r.is_err());
    assert_eq!(after, before);
    let (r, after) = settle(before, 7, Err(Refused), None);
    assert!(r.is_err());
    assert_eq!(after, before);
    let (r, after) = flush::<Refused>(before, Ok(()));
    assert!(r.is_ok());
    assert_eq!(after, Frontier { watermark: 4, synced: 4 });
    assert_eq!(flush(before, Err(Refused)).1, before);
}

#[test]
fn what_the_store_found_is_recovered_from() {
    let storage = Mem::default();
    let failed = Opening::<Store, Mem>::found::<String>(Store::new(), storage, Err(Refused));
    assert!(matches!(failed.err().unwrap(), Error::Storage(Refused)));
    let header = Snapshot::new(3, Value::from_json(&number_field("a", 1))).unwrap();
    let found = Recovered { header: Some(header), tail: vec![] };
    let opening =
        Opening::<Store, Mem>::found::<String>(Store::new(), Mem::default(), Ok(found)).unwrap();
    let log = opening.replay::<String>(vec![]).unwrap();
    assert_eq!((log.watermark(), log.synced()), (3, 3));
    assert!(log.view_at(2).is_none());
    assert_eq!(log.view_at(3).unwrap().state(), number_field("a", 1));
    let answer: Result<u8, Error<(), Refused, ()>> = passed_on(Err(Refused));
    assert!(matches!(answer, Err(Error::Storage(Refused))));
}

fn number_field(key: &str, n: u64) -> Json {
    Json::Object(vec![(key.to_string(), number(n))])
}

#[test]
fn a_structure_is_folded_in_two_phases() {
    let mut store = Store::new();
    let mut staged = store.stage();
    store.stage_patch(&mut staged, &create("a", 1).patch).unwrap();
    // Nobody sees staged work.
    assert_eq!(Reducible::version(&store), 0);
    let view = store.commit(staged).unwrap().unwrap();
    assert_eq!(view.version(), 1);
    let noop = Noop::new();
    assert_eq!(Reducible::version(&noop), 0);
    assert!(Reducible::apply(&mut store, &create("b", 1).patch).unwrap().is_some());
    assert_eq!(Reducible::version(&store), 2);
}
