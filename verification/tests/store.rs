//! The store: patches, batches, history.

use lug::cavlc::avl::AvlMap;
use lug::cavlc::error::{Error, Flaw};
use lug::cavlc::mvcc::{Commit, Snapshot, Store};
use lug::cavlc::patch::Patch;
use lug::cavlc::value::Value;
use lug::json::{Json, Number};

fn of_serde(value: &serde_json::Value) -> Json {
    match value {
        serde_json::Value::Null => Json::Null,
        serde_json::Value::Bool(b) => Json::Bool(*b),
        serde_json::Value::Number(n) => Json::Number(if let Some(u) = n.as_u64() {
            Number::Unsigned(u)
        } else if let Some(i) = n.as_i64() {
            Number::Negative(i)
        } else {
            Number::Double(n.to_string())
        }),
        serde_json::Value::String(s) => Json::Text(s.clone()),
        serde_json::Value::Array(items) => Json::Array(items.iter().map(of_serde).collect()),
        serde_json::Value::Object(map) => {
            Json::Object(map.iter().map(|(k, v)| (k.clone(), of_serde(v))).collect())
        }
    }
}

fn json(text: &str) -> Json {
    of_serde(&serde_json::from_str(text).expect("JSON"))
}

fn patch(text: &str) -> Patch {
    Patch::from_json(&json(text)).expect("a patch")
}

fn number(n: u64) -> Json {
    Json::Number(Number::Unsigned(n))
}

fn field(store: &Store, key: &str) -> Option<Json> {
    store.snapshot().root().get(key).map(|v| v.to_json())
}

#[test]
fn create_then_update_and_delete_without_old_values() {
    let mut store = Store::new();
    assert!(store.apply(&patch(r#"{"Update":{"count":1}}"#)).is_err());
    assert_eq!(store.snapshot().version(), 0);
    store.apply(&patch(r#"{"Create":{"count":0}}"#)).unwrap();
    assert_eq!(field(&store, "count"), Some(number(0)));
    store.apply(&patch(r#"{"Update":{"count":2}}"#)).unwrap();
    assert_eq!(field(&store, "count"), Some(number(2)));
    store.apply(&patch(r#"{"Delete":["count"]}"#)).unwrap();
    assert_eq!(store.snapshot().root().to_json(), json("{}"));
    assert_eq!(store.snapshot().version(), 3);
}

#[test]
fn initialized_children_nested_delete_and_no_resurrection() {
    let mut store = Store::new();
    store
        .apply(&patch(
            r#"{"Create":{"profile":{"nested":{"name":"Gluck","remove":true}}}}"#,
        ))
        .unwrap();
    assert_eq!(
        store.snapshot().root().to_json(),
        json(r#"{"profile":{"nested":{"name":"Gluck","remove":true}}}"#)
    );
    store
        .apply(&patch(
            r#"{"Update":{"profile":{"Update":{"nested":{"Update":{"name":"Figaro"}}}}}}"#,
        ))
        .unwrap();
    store
        .apply(&patch(
            r#"{"Update":{"profile":{"Update":{"nested":{"Delete":["remove"]}}}}}"#,
        ))
        .unwrap();
    assert_eq!(
        store.snapshot().root().to_json(),
        json(r#"{"profile":{"nested":{"name":"Figaro"}}}"#)
    );
    store.apply(&patch(r#"{"Delete":["profile"]}"#)).unwrap();
    assert_eq!(store.snapshot().root().to_json(), json("{}"));
    let late = store.apply(&patch(r#"{"Update":{"profile":{"Create":{"late":true}}}}"#));
    assert!(late.is_err());
    assert_eq!(store.snapshot().version(), 4);
    assert_eq!(store.snapshot().root().to_json(), json("{}"));
}

/// A batch shows its own work before the store does, and publishes it as one
/// version with one record.
#[test]
fn renders_current_and_pending_snapshots_after_every_update() {
    let mut store = Store::new();
    store.apply(&patch(r#"{"Create":{"count":1}}"#)).unwrap();
    let mut batch = store.begin_batch();
    batch.apply(&patch(r#"{"Update":{"count":2}}"#)).unwrap();
    assert_eq!(field(&store, "count"), Some(number(1)));
    assert_eq!(batch.root().get("count").unwrap().to_json(), number(2));
    batch.apply(&patch(r#"{"Create":{"name":"Gluck"}}"#)).unwrap();
    assert_eq!(
        batch.root().get("name").unwrap().to_json(),
        Json::Text("Gluck".to_string())
    );
    assert_eq!(batch.base().version(), 1);
    store.apply_batch(batch).unwrap();
    assert_eq!(field(&store, "count"), Some(number(2)));
    assert_eq!(store.snapshot().version(), 2);
    let historical = store.snapshot_at(1).unwrap();
    assert_eq!(historical.root().get("count").unwrap().to_json(), number(1));
    assert_eq!(field(&store, "count"), Some(number(2)));
    assert_eq!(store.log().len(), 2);
    assert_eq!(store.log()[1].patches.len(), 2);
}

#[test]
fn errors_leave_snapshot_intact_and_input_continues() {
    assert!(Patch::from_json(&Json::Text("not a patch".to_string())).is_err());
    let mut store = Store::new();
    store.apply(&patch(r#"{"Create":{"a":1}}"#)).unwrap();
    let before = store.snapshot();
    let refused = store.apply(&patch(r#"{"Update":{"missing":99}}"#)).unwrap_err();
    assert_eq!(refused, Error::InvalidPatch(Flaw::NoSuchKey("missing".to_string())));
    assert_eq!(store.snapshot().version(), 1);
    assert!(store.snapshot().root() == before.root());
    store.apply(&patch(r#"{"Create":{"b":2}}"#)).unwrap();
    assert_eq!(store.snapshot().version(), 2);
}

#[test]
fn abort_discards_work_and_exit_flags_are_predictable() {
    let store = Store::new();
    let mut batch = store.begin_batch();
    batch.apply(&patch(r#"{"Create":{"a":1}}"#)).unwrap();
    drop(batch);
    assert_eq!(store.snapshot().version(), 0);
    assert_eq!(store.snapshot().root().to_json(), json("{}"));
}

#[test]
fn every_flaw_is_told() {
    let mut store = Store::new();
    store.apply(&patch(r#"{"Create":{"a":1}}"#)).unwrap();
    assert_eq!(
        store.apply(&patch(r#"{"Create":{"a":2}}"#)).unwrap_err(),
        Error::InvalidPatch(Flaw::KeyExists("a".to_string()))
    );
    assert_eq!(
        store.apply(&patch(r#"{"Delete":["b"]}"#)).unwrap_err(),
        Error::InvalidPatch(Flaw::NoSuchKey("b".to_string()))
    );
    assert_eq!(
        store.apply(&patch(r#"{"Update":{"a":{"Create":{"b":1}}}}"#)).unwrap_err(),
        Error::InvalidPatch(Flaw::NotAnObject)
    );
    assert_eq!(
        Error::InvalidPatch(Flaw::KeyExists("a".to_string())).message(),
        "invalid patch: key \"a\" already exists"
    );
    assert_eq!(
        Error::Conflict { expected: 1, actual: 3 }.message(),
        "the batch is based on version 1, the store is at 3"
    );
}

#[test]
fn a_patch_edits_in_order_create_update_delete() {
    let mut store = Store::new();
    store
        .apply(&patch(r#"{"Create":{"a":1},"Update":{"a":2},"Delete":["a"]}"#))
        .unwrap();
    // Nothing is left of it, and nothing changed, so no version was minted.
    assert_eq!(store.snapshot().version(), 0);
    assert_eq!(store.snapshot().root().to_json(), json("{}"));
}

#[test]
fn not_every_json_is_a_patch() {
    for text in [
        "[]",
        "1",
        r#"{"Replace":{}}"#,
        r#"{"Create":[]}"#,
        r#"{"Delete":{}}"#,
        r#"{"Delete":[1]}"#,
        r#"{"Update":[]}"#,
        r#"{"Update":{"a":{"b":1}}}"#,
    ] {
        assert!(Patch::from_json(&json(text)).is_err(), "{text}");
    }
    assert!(Patch::from_json(&json("{}")).is_ok());
}

#[test]
fn an_empty_patch_changes_nothing() {
    let mut store = Store::new();
    store.apply(&patch(r#"{"Create":{"a":1}}"#)).unwrap();
    let applied = store.apply(&patch("{}")).unwrap();
    assert!(applied.record.is_none());
    assert_eq!(applied.snapshot.version(), 1);
    let same = store.apply(&patch(r#"{"Update":{"a":1}}"#)).unwrap();
    assert!(same.record.is_none());
    assert_eq!(store.log().len(), 1);
}

#[test]
fn stale_and_foreign_batches_publish_nothing() {
    let mut store = Store::new();
    let mut stale = store.begin_batch();
    stale.apply(&patch(r#"{"Create":{"a":1}}"#)).unwrap();
    let empty = store.begin_batch();
    store.apply(&patch(r#"{"Create":{"b":1}}"#)).unwrap();
    assert_eq!(
        store.apply_batch(stale).err().unwrap(),
        Error::Conflict { expected: 0, actual: 1 }
    );
    assert_eq!(
        store.apply_batch(empty).err().unwrap(),
        Error::Conflict { expected: 0, actual: 1 }
    );
    let foreign = Store::new().begin_batch();
    assert_eq!(store.apply_batch(foreign).err().unwrap(), Error::ForeignBatch);
    assert_eq!(store.snapshot().version(), 1);
    assert!(field(&store, "a").is_none());
    // A batch of the version that is there goes through.
    let fresh = store.begin_batch();
    assert!(store.apply_batch(fresh).unwrap().record.is_none());
}

#[test]
fn a_batch_of_a_discarded_version_is_refused() {
    let mut store = Store::new();
    store.apply(&patch(r#"{"Create":{"a":1}}"#)).unwrap();
    let mut batch = store.begin_batch();
    batch.apply(&patch(r#"{"Create":{"c":1}}"#)).unwrap();
    store.truncate(0);
    store.apply(&patch(r#"{"Create":{"b":1}}"#)).unwrap();
    assert_eq!(store.snapshot().version(), 1);
    assert_eq!(
        store.apply_batch(batch).err().unwrap(),
        Error::Conflict { expected: 1, actual: 1 }
    );
}

#[test]
fn snapshots_outlive_commits_and_truncation() {
    let mut store = Store::new();
    for n in 0..50 {
        let text = "{\"Create\":{\"k".to_string() + &n.to_string() + "\":" + &n.to_string() + "}}";
        store.apply(&patch(&text)).unwrap();
    }
    let held = store.snapshot();
    let third = store.snapshot_at(3).unwrap();
    store.truncate(10);
    assert_eq!(store.snapshot().version(), 10);
    assert!(store.snapshot_at(11).is_none());
    assert_eq!(held.version(), 50);
    assert_eq!(held.root().get("k49").unwrap().to_json(), number(49));
    assert!(third.root().get("k3").is_none());
    assert!(third.root().get("k2").is_some());
    // A version that was never reached leaves things as they are.
    store.truncate(99);
    assert_eq!(store.snapshot().version(), 10);
    assert_eq!(store.patches_between(3, 5).unwrap().len(), 2);
    assert!(store.patches_between(5, 3).is_none());
    assert!(store.patches_between(3, 11).is_none());
}

#[test]
fn a_resumed_store_has_no_history_below_its_base() {
    let root = Value::from_json(&json(r#"{"a":1}"#));
    let mut store = Store::resume(Snapshot::new(7, root).unwrap());
    assert_eq!(store.base(), 7);
    assert!(store.snapshot_at(6).is_none());
    store.apply(&patch(r#"{"Update":{"a":2}}"#)).unwrap();
    assert_eq!(store.snapshot().version(), 8);
    assert!(Snapshot::new(1, Value::from_json(&number(1))).is_err());
    assert!(Store::from_value(Value::from_json(&json("[]"))).is_err());
    assert_eq!(
        Store::from_value(Value::from_json(&json(r#"{"a":1}"#))).unwrap().snapshot().version(),
        0
    );
}

#[test]
fn versions_can_be_exhausted() {
    let mut store = Store::resume(Snapshot::detached(u64::MAX, Value::default()));
    assert_eq!(
        store.apply(&patch(r#"{"Create":{"a":1}}"#)).err().unwrap(),
        Error::VersionOverflow
    );
    assert_eq!(store.snapshot().version(), u64::MAX);
}

#[test]
fn replay_reproduces_a_store() {
    let mut store = Store::new();
    store.apply(&patch(r#"{"Create":{"a":1}}"#)).unwrap();
    let mut batch = store.begin_batch();
    batch.apply(&patch(r#"{"Update":{"a":2}}"#)).unwrap();
    batch.apply(&patch(r#"{"Create":{"b":{"c":3}}}"#)).unwrap();
    store.apply_batch(batch).unwrap();
    let log: Vec<Commit> = store.log().to_vec();
    let again = Store::replay(Value::default(), &log).unwrap();
    assert_eq!(again.snapshot().version(), 2);
    assert!(again.snapshot().root() == store.snapshot().root());

    let gap = vec![log[1].clone()];
    assert_eq!(
        Store::replay(Value::default(), &gap).err().unwrap(),
        Error::InvalidVersion { expected: 1, actual: 2 }
    );
    let empty = vec![Commit { version: 1, patches: Vec::new() }];
    assert_eq!(
        Store::replay(Value::default(), &empty).err().unwrap(),
        Error::InvalidPatch(Flaw::EmptyBatch)
    );
    let identity = vec![Commit { version: 1, patches: vec![patch("{}")] }];
    assert_eq!(
        Store::replay(Value::default(), &identity).err().unwrap(),
        Error::InvalidPatch(Flaw::Identity)
    );
}

#[test]
fn maps_hold_what_was_put_and_lose_what_was_removed() {
    let mut map = AvlMap::new();
    for n in 0..200u64 {
        let key = "k".to_string() + &((n * 37) % 200).to_string();
        map = map.insert(key, Value::from_json(&number(n)));
    }
    assert_eq!(map.len(), 200);
    let before = map.share();
    for n in 0..100u64 {
        let key = "k".to_string() + &n.to_string();
        map = map.remove(&key);
    }
    assert_eq!(map.len(), 100);
    assert_eq!(before.len(), 200);
    assert!(map.get("k0").is_none());
    assert!(map.get("k150").is_some());
    let keys: Vec<String> = map.iter().into_iter().map(|(k, _)| k).collect();
    let mut sorted = keys.clone();
    sorted.sort();
    assert_eq!(keys, sorted);
}

#[test]
fn values_are_compared_by_what_they_hold_and_shared_by_pointer() {
    let a = Value::from_json(&json(r#"{"x":{"y":[1,2.5,-3,null,true]}}"#));
    let b = Value::from_json(&json(r#"{"x":{"y":[1,2.5,-3,null,true]}}"#));
    assert!(a == b);
    assert!(!a.ptr_eq(&b));
    assert!(a.ptr_eq(&a.clone()));
    assert_eq!(
        a.at(&["x", "y"]).unwrap().to_json(),
        json("[1,2.5,-3,null,true]")
    );
    assert!(a.at(&["x", "z"]).is_none());
    assert!(a.as_object().is_some());
    assert!(a.get("x").unwrap().get("y").unwrap().as_atom().is_some());
}

#[test]
fn values_are_what_their_json_was() {
    for text in ["null", "[1,{\"a\":2}]", "-0.0", "0.0", "1e300", "{}", "{\"b\":[-0.0],\"a\":{}}"] {
        let value = Value::from(json(text));
        assert_eq!(value.to_json(), json(text), "{text}");
        assert!(value.to_json().identical(&json(text)), "{text}");
        assert!(json(text).copy().identical(&json(text)), "{text}");
        assert_eq!(value.as_object().is_some(), matches!(json(text), Json::Object(_)), "{text}");
        assert_eq!(value.as_atom().is_some(), !matches!(json(text), Json::Object(_)), "{text}");
    }
    let (zero, minus) = (json("0.0"), json("-0.0"));
    // The two zeros compare equal, and each stays what it is.
    assert!(zero == minus);
    assert!(!zero.identical(&minus));
    assert!(Value::from(zero) == Value::from(minus));
    assert!(Value::from(json("1.5")) != Value::from(json("1.25")));
    assert!(Value::from(json(r#"{"a":1,"b":2}"#)) == Value::from(json(r#"{"b":2,"a":1}"#)));
    assert!(Value::from(json("1")) != Value::from(json("1.0")));
}

#[test]
fn views_come_in_three_shapes() {
    let own = Snapshot::from_view(9, &json(r#"{"version":4,"root":{"a":1}}"#)).unwrap();
    assert_eq!(own.version(), 4);
    assert_eq!(own.root().get("a").unwrap().to_json(), number(1));
    let pair = Snapshot::from_view(9, &json(r#"[4,{"a":1}]"#)).unwrap();
    assert_eq!(pair.version(), 4);
    let wrapped =
        Snapshot::from_view(9, &json(r#"{"view":{"version":5,"root":{}},"synced":3}"#)).unwrap();
    assert_eq!(wrapped.version(), 5);
    let bare = Snapshot::from_view(9, &json(r#"{"title":"lug"}"#)).unwrap();
    assert_eq!(bare.version(), 9);
    assert_eq!(bare.root().to_json(), json(r#"{"title":"lug"}"#));
    // A root that happens to have both names is told apart by a third.
    let close = Snapshot::from_view(9, &json(r#"{"version":4,"root":{},"x":1}"#)).unwrap();
    assert_eq!(close.version(), 9);
    assert!(Snapshot::from_view(9, &json("3")).is_none());
}

fn fields(list: &[(&str, Json)]) -> Json {
    Json::Object(list.iter().map(|(k, v)| (k.to_string(), v.clone())).collect())
}

#[test]
fn the_order_of_keys_does_not_count() {
    let ba = fields(&[("b", Json::Null), ("a", number(1))]);
    let ab = fields(&[("a", number(1)), ("b", Json::Null)]);
    assert_eq!(ba, ab);
    assert_ne!(ba, fields(&[("a", number(2)), ("b", Json::Null)]));
    assert_eq!(fields(&[("a", number(1)), ("a", number(2))]), fields(&[("a", number(2))]));
    let read = Value::from_json(&ba);
    assert!(read == Value::from_json(&ab));
    assert_eq!(read.to_json(), ba);
    match ba.to_canonical() {
        Json::Object(list) => {
            let keys: Vec<&str> = list.iter().map(|(k, _)| k.as_str()).collect();
            assert_eq!(keys, ["a", "b"]);
        }
        other => panic!("{other:?}"),
    }
    // Arrays are atoms, but what is in them is JSON all the same.
    let x = Value::from_json(&Json::Array(vec![ba.clone(), number(3)]));
    let y = Value::from_json(&Json::Array(vec![ab, number(3)]));
    assert!(x == y);
    assert_eq!(x.as_atom(), Some(&Json::Array(vec![ba, number(3)])));
    assert!(x != Value::from_json(&Json::Array(vec![number(3)])));
}

#[test]
fn a_patch_reads_the_same_whatever_the_order_of_its_keys() {
    let mut store = Store::new();
    store.apply(&patch(r#"{"Create":{"list":[{"a":1,"b":2}]}}"#)).unwrap();
    let item = fields(&[("b", number(2)), ("a", number(1))]);
    let same = fields(&[
        ("Update", fields(&[("list", Json::Array(vec![item]))])),
        ("Create", fields(&[])),
    ]);
    // The same list once more changes nothing, so nothing is minted.
    let applied = store.apply(&Patch::from_json(&same).unwrap()).unwrap();
    assert!(applied.record.is_none());
    assert_eq!(store.snapshot().version(), 1);
}

#[test]
fn a_batch_on_a_discarded_version_is_rejected_even_if_it_is_minted_again() {
    let mut store = Store::new();
    store.apply(&patch(r#"{"Create":{"a":1}}"#)).unwrap();
    store.apply(&patch(r#"{"Create":{"b":2}}"#)).unwrap();
    let mut kept = store.begin_batch();
    kept.apply(&patch(r#"{"Create":{"c":3}}"#)).unwrap();
    let mut on_two = store.begin_batch();
    on_two.apply(&patch(r#"{"Create":{"d":4}}"#)).unwrap();
    store.truncate(1);
    store.apply(&patch(r#"{"Create":{"b":2}}"#)).unwrap();
    assert_eq!(store.snapshot().version(), 2);
    let refused = store.apply_batch(on_two).unwrap_err();
    assert_eq!(refused, Error::Conflict { expected: 2, actual: 2 });
    assert!(store.apply_batch(kept).is_err());

    // A version that was not discarded goes on as before.
    let mut store = Store::new();
    store.apply(&patch(r#"{"Create":{"a":1}}"#)).unwrap();
    let mut on_one = store.begin_batch();
    on_one.apply(&patch(r#"{"Create":{"d":4}}"#)).unwrap();
    store.apply(&patch(r#"{"Create":{"b":2}}"#)).unwrap();
    store.truncate(1);
    assert_eq!(store.apply_batch(on_one).unwrap().snapshot.version(), 2);
}
