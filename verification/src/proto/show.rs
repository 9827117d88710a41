//! Frames in words, for messages.

use super::{Code, LogInfo, Record, Response};
use crate::json::{
    bool_name, bool_text, canonical, fields_view, lemma_object, number_text, number_words, Json,
    JsonView,
};
use crate::quote::{quote, quoted};
use crate::text::{decimal, decimal_text};
use vstd::prelude::*;

verus! {

/// Parts with commas between them.
pub open spec fn commas(parts: Seq<Seq<char>>) -> Seq<char>
    decreases parts.len(),
{
    if parts.len() == 0 {
        Seq::empty()
    } else if parts.len() == 1 {
        parts[0]
    } else {
        commas(parts.drop_last()) + ", "@ + parts.last()
    }
}

proof fn lemma_commas(parts: Seq<Seq<char>>, i: int)
    requires
        0 <= i < parts.len(),
    ensures
        commas(parts.take(i + 1)) == if i == 0 {
            parts[0]
        } else {
            commas(parts.take(i)) + ", "@ + parts[i]
        },
{
    let more = parts.take(i + 1);
    assert(more.drop_last() =~= parts.take(i));
    assert(more.last() == parts[i]);
}

/// A value with the kind it is of, the keys of its objects in order.
pub open spec fn value_text(value: JsonView) -> Seq<char> {
    written(canonical(value))
}

/// A value with the kind it is of, field by field as they stand.
pub open spec fn written(value: JsonView) -> Seq<char>
    decreases value,
{
    match value {
        JsonView::Null => "Null"@,
        JsonView::Bool(b) => "Bool("@ + bool_text(b) + ")"@,
        JsonView::Number(n) => "Number("@ + number_text(n) + ")"@,
        JsonView::Text(s) => "String("@ + quoted(s) + ")"@,
        JsonView::Array(items) => "Array ["@ + items_text(items) + "]"@,
        JsonView::Object(fields) => "Object {"@ + fields_text(fields) + "}"@,
    }
}

pub open spec fn items_text(items: Seq<JsonView>) -> Seq<char>
    decreases items,
{
    if items.len() == 0 {
        Seq::empty()
    } else if items.len() == 1 {
        written(items[0])
    } else {
        items_text(items.drop_last()) + ", "@ + written(items[items.len() - 1])
    }
}

pub open spec fn fields_text(fields: Seq<(Seq<char>, JsonView)>) -> Seq<char>
    decreases fields,
{
    if fields.len() == 0 {
        Seq::empty()
    } else {
        let (name, value) = fields[fields.len() - 1];
        let last = quoted(name) + ": "@ + written(value);
        if fields.len() == 1 {
            last
        } else {
            fields_text(fields.drop_last()) + ", "@ + last
        }
    }
}

pub(crate) fn value_words(value: &Json) -> (r: String)
    ensures
        r@ == value_text(value@),
{
    write_value(&value.to_canonical())
}

fn write_value(value: &Json) -> (r: String)
    ensures
        r@ == written(value@),
    decreases value,
{
    match value {
        Json::Null => String::from_str("Null"),
        Json::Bool(b) => {
            let mut out = String::from_str("Bool(");
            out.append(bool_name(*b));
            out.append(")");
            out
        },
        Json::Number(n) => {
            let mut out = String::from_str("Number(");
            out.append(number_words(n).as_str());
            out.append(")");
            out
        },
        Json::Text(s) => {
            let mut out = String::from_str("String(");
            out.append(quote(s.as_str()).as_str());
            out.append(")");
            out
        },
        Json::Array(items) => {
            let mut out = String::from_str("Array [");
            let ghost all = value@->Array_0;
            let mut i: usize = 0;
            assert(out@ =~= "Array ["@ + items_text(all.take(0)));
            while i < items.len()
                invariant
                    i <= items@.len(),
                    *value == Json::Array(*items),
                    all == value@->Array_0,
                    all.len() == items@.len(),
                    out@ == "Array ["@ + items_text(all.take(i as int)),
                decreases items@.len() - i,
            {
                proof {
                    assert(decreases_to!(*value => value->Array_0));
                    assert(decreases_to!(*items => items@));
                    assert(decreases_to!(items@ => items@[i as int]));
                    assert(all.take(i + 1).drop_last() =~= all.take(i as int));
                    assert(all[i as int] == items@[i as int]@);
                }
                if i > 0 {
                    out.append(", ");
                }
                out.append(write_value(&items[i]).as_str());
                i += 1;
                assert(out@ =~= "Array ["@ + items_text(all.take(i as int)));
            }
            assert(all.take(i as int) =~= all);
            out.append("]");
            out
        },
        Json::Object(fields) => {
            let mut out = String::from_str("Object {");
            let ghost all = fields_view(fields@);
            proof {
                lemma_object(*value);
            }
            let mut i: usize = 0;
            assert(out@ =~= "Object {"@ + fields_text(all.take(0)));
            while i < fields.len()
                invariant
                    i <= fields@.len(),
                    *value == Json::Object(*fields),
                    all == fields_view(fields@),
                    out@ == "Object {"@ + fields_text(all.take(i as int)),
                decreases fields@.len() - i,
            {
                proof {
                    assert(decreases_to!(*value => value->Object_0));
                    assert(decreases_to!(*fields => fields@));
                    assert(decreases_to!(fields@ => fields@[i as int]));
                    assert(decreases_to!(fields@[i as int] => fields@[i as int].1));
                    assert(all.take(i + 1).drop_last() =~= all.take(i as int));
                }
                if i > 0 {
                    out.append(", ");
                }
                out.append(quote(fields[i].0.as_str()).as_str());
                out.append(": ");
                out.append(write_value(&fields[i].1).as_str());
                i += 1;
                assert(out@ =~= "Object {"@ + fields_text(all.take(i as int)));
            }
            assert(all.take(i as int) =~= all);
            out.append("}");
            out
        },
    }
}

pub open spec fn session_text(session: Option<String>) -> Seq<char> {
    match session {
        Some(s) => "Some("@ + quoted(s@) + ")"@,
        None => "None"@,
    }
}

fn session_words(session: &Option<String>) -> (r: String)
    ensures
        r@ == session_text(*session),
{
    match session {
        Some(s) => {
            let mut out = String::from_str("Some(");
            out.append(quote(s.as_str()).as_str());
            out.append(")");
            out
        },
        None => String::from_str("None"),
    }
}

pub open spec fn record_text(record: Record) -> Seq<char> {
    "Record { version: "@ + decimal(record.version as nat) + ", patch: "@ + value_text(
        record.patch@,
    ) + " }"@
}

fn record_words(record: &Record) -> (r: String)
    ensures
        r@ == record_text(*record),
{
    let mut out = String::from_str("Record { version: ");
    out.append(decimal_text(record.version).as_str());
    out.append(", patch: ");
    out.append(value_words(&record.patch).as_str());
    out.append(" }");
    out
}

pub open spec fn log_text(info: LogInfo) -> Seq<char> {
    "LogInfo { name: "@ + quoted(info.name@) + ", reducible: "@ + bool_text(info.reducible)
        + ", version: "@ + decimal(info.version as nat) + ", oldest: "@ + decimal(
        info.oldest as nat,
    ) + ", subscribers: "@ + decimal(info.subscribers as nat) + " }"@
}

fn log_words(info: &LogInfo) -> (r: String)
    ensures
        r@ == log_text(*info),
{
    let mut out = String::from_str("LogInfo { name: ");
    out.append(quote(info.name.as_str()).as_str());
    out.append(", reducible: ");
    out.append(bool_name(info.reducible));
    out.append(", version: ");
    out.append(decimal_text(info.version).as_str());
    out.append(", oldest: ");
    out.append(decimal_text(info.oldest).as_str());
    out.append(", subscribers: ");
    out.append(decimal_text(info.subscribers as u64).as_str());
    out.append(" }");
    out
}

pub open spec fn version_texts(versions: Seq<u64>) -> Seq<Seq<char>> {
    Seq::new(versions.len(), |i: int| decimal(versions[i] as nat))
}

pub(crate) fn version_words(versions: &Vec<u64>) -> (r: String)
    ensures
        r@ == commas(version_texts(versions@)),
{
    let ghost parts = version_texts(versions@);
    let mut out = String::new();
    let mut i: usize = 0;
    assert(out@ =~= commas(parts.take(0)));
    while i < versions.len()
        invariant
            i <= versions@.len(),
            parts == version_texts(versions@),
            out@ == commas(parts.take(i as int)),
        decreases versions@.len() - i,
    {
        proof {
            lemma_commas(parts, i as int);
        }
        if i > 0 {
            out.append(", ");
        }
        out.append(decimal_text(versions[i]).as_str());
        i += 1;
        assert(out@ =~= commas(parts.take(i as int)));
    }
    assert(parts.take(i as int) =~= parts);
    out
}

pub open spec fn record_texts(records: Seq<Record>) -> Seq<Seq<char>> {
    Seq::new(records.len(), |i: int| record_text(records[i]))
}

fn records_words(records: &Vec<Record>) -> (r: String)
    ensures
        r@ == commas(record_texts(records@)),
{
    let ghost parts = record_texts(records@);
    let mut out = String::new();
    let mut i: usize = 0;
    assert(out@ =~= commas(parts.take(0)));
    while i < records.len()
        invariant
            i <= records@.len(),
            parts == record_texts(records@),
            out@ == commas(parts.take(i as int)),
        decreases records@.len() - i,
    {
        proof {
            lemma_commas(parts, i as int);
        }
        if i > 0 {
            out.append(", ");
        }
        out.append(record_words(&records[i]).as_str());
        i += 1;
        assert(out@ =~= commas(parts.take(i as int)));
    }
    assert(parts.take(i as int) =~= parts);
    out
}

pub open spec fn log_texts(logs: Seq<LogInfo>) -> Seq<Seq<char>> {
    Seq::new(logs.len(), |i: int| log_text(logs[i]))
}

fn logs_words(logs: &Vec<LogInfo>) -> (r: String)
    ensures
        r@ == commas(log_texts(logs@)),
{
    let ghost parts = log_texts(logs@);
    let mut out = String::new();
    let mut i: usize = 0;
    assert(out@ =~= commas(parts.take(0)));
    while i < logs.len()
        invariant
            i <= logs@.len(),
            parts == log_texts(logs@),
            out@ == commas(parts.take(i as int)),
        decreases logs@.len() - i,
    {
        proof {
            lemma_commas(parts, i as int);
        }
        if i > 0 {
            out.append(", ");
        }
        out.append(log_words(&logs[i]).as_str());
        i += 1;
        assert(out@ =~= commas(parts.take(i as int)));
    }
    assert(parts.take(i as int) =~= parts);
    out
}

/// A code by its name.
pub open spec fn code_text(code: Code) -> Seq<char> {
    match code {
        Code::Rejected => "Rejected"@,
        Code::NoSuchLog => "NoSuchLog"@,
        Code::LogExists => "LogExists"@,
        Code::NotReducible => "NotReducible"@,
        Code::OutOfRange => "OutOfRange"@,
        Code::BadId => "BadId"@,
        Code::Unauthorized => "Unauthorized"@,
        Code::Malformed => "Malformed"@,
        Code::Storage => "Storage"@,
        Code::Backpressure => "Backpressure"@,
        Code::Internal => "Internal"@,
    }
}

pub fn code_name(code: Code) -> (r: &'static str)
    ensures
        r@ == code_text(code),
{
    match code {
        Code::Rejected => "Rejected",
        Code::NoSuchLog => "NoSuchLog",
        Code::LogExists => "LogExists",
        Code::NotReducible => "NotReducible",
        Code::OutOfRange => "OutOfRange",
        Code::BadId => "BadId",
        Code::Unauthorized => "Unauthorized",
        Code::Malformed => "Malformed",
        Code::Storage => "Storage",
        Code::Backpressure => "Backpressure",
        Code::Internal => "Internal",
    }
}

/// A frame: what it is, and what it carries.
pub open spec fn shown(frame: Response) -> Seq<char> {
    match frame {
        Response::Welcome { id, version, max_frame, session } => "Welcome { id: "@ + decimal(
            id as nat,
        ) + ", version: "@ + decimal(version as nat) + ", max_frame: "@ + decimal(
            max_frame as nat,
        ) + ", session: "@ + session_text(session) + " }"@,
        Response::Ack { id, versions, synced } => "Ack { id: "@ + decimal(id as nat)
            + ", versions: ["@ + commas(version_texts(versions@)) + "], synced: "@ + decimal(
            synced as nat,
        ) + " }"@,
        Response::Records { id, records } => "Records { id: "@ + decimal(id as nat)
            + ", records: ["@ + commas(record_texts(records@)) + "] }"@,
        Response::View { id, version, value } => "View { id: "@ + decimal(id as nat)
            + ", version: "@ + decimal(version as nat) + ", value: "@ + value_text(value@) + " }"@,
        Response::Gap { id, from, to } => "Gap { id: "@ + decimal(id as nat) + ", from: "@
            + decimal(from as nat) + ", to: "@ + decimal(to as nat) + " }"@,
        Response::Logs { id, logs } => "Logs { id: "@ + decimal(id as nat) + ", logs: ["@ + commas(
            log_texts(logs@),
        ) + "] }"@,
        Response::Accepted { id } => "Ok { id: "@ + decimal(id as nat) + " }"@,
        Response::End { id } => "End { id: "@ + decimal(id as nat) + " }"@,
        Response::Pong { id } => "Pong { id: "@ + decimal(id as nat) + " }"@,
        Response::Error { id, code, message } => "Error { id: "@ + decimal(id as nat)
            + ", code: "@ + code_text(code) + ", message: "@ + quoted(message@) + " }"@,
    }
}

pub fn show(frame: &Response) -> (r: String)
    ensures
        r@ == shown(*frame),
{
    let mut out = String::new();
    match frame {
        Response::Welcome { id, version, max_frame, session } => {
            out.append("Welcome { id: ");
            out.append(decimal_text(*id).as_str());
            out.append(", version: ");
            out.append(decimal_text(*version as u64).as_str());
            out.append(", max_frame: ");
            out.append(decimal_text(*max_frame as u64).as_str());
            out.append(", session: ");
            out.append(session_words(session).as_str());
        },
        Response::Ack { id, versions, synced } => {
            out.append("Ack { id: ");
            out.append(decimal_text(*id).as_str());
            out.append(", versions: [");
            out.append(version_words(versions).as_str());
            out.append("], synced: ");
            out.append(decimal_text(*synced).as_str());
        },
        Response::Records { id, records } => {
            out.append("Records { id: ");
            out.append(decimal_text(*id).as_str());
            out.append(", records: [");
            out.append(records_words(records).as_str());
            out.append("] }");
            assert(out@ =~= shown(*frame));
            return out;
        },
        Response::View { id, version, value } => {
            out.append("View { id: ");
            out.append(decimal_text(*id).as_str());
            out.append(", version: ");
            out.append(decimal_text(*version).as_str());
            out.append(", value: ");
            out.append(value_words(value).as_str());
        },
        Response::Gap { id, from, to } => {
            out.append("Gap { id: ");
            out.append(decimal_text(*id).as_str());
            out.append(", from: ");
            out.append(decimal_text(*from).as_str());
            out.append(", to: ");
            out.append(decimal_text(*to).as_str());
        },
        Response::Logs { id, logs } => {
            out.append("Logs { id: ");
            out.append(decimal_text(*id).as_str());
            out.append(", logs: [");
            out.append(logs_words(logs).as_str());
            out.append("] }");
            assert(out@ =~= shown(*frame));
            return out;
        },
        Response::Accepted { id } => {
            out.append("Ok { id: ");
            out.append(decimal_text(*id).as_str());
        },
        Response::End { id } => {
            out.append("End { id: ");
            out.append(decimal_text(*id).as_str());
        },
        Response::Pong { id } => {
            out.append("Pong { id: ");
            out.append(decimal_text(*id).as_str());
        },
        Response::Error { id, code, message } => {
            out.append("Error { id: ");
            out.append(decimal_text(*id).as_str());
            out.append(", code: ");
            out.append(code_name(*code));
            out.append(", message: ");
            out.append(quote(message.as_str()).as_str());
        },
    }
    out.append(" }");
    assert(out@ =~= shown(*frame));
    out
}

/// Parts are joined by commas, with none before the first or after the last: two
/// runs of parts are joined as one is.
pub proof fn parts_are_joined_by_commas(first: Seq<Seq<char>>, second: Seq<Seq<char>>)
    requires
        first.len() > 0,
        second.len() > 0,
    ensures
        commas(first + second) == commas(first) + ", "@ + commas(second),
        first.len() == 1 ==> commas(first) == first[0],
    decreases second.len(),
{
    let all = first + second;
    assert(all.last() == second.last());
    if second.len() == 1 {
        assert(all.drop_last() =~= first);
    } else {
        assert(all.drop_last() =~= first + second.drop_last());
        parts_are_joined_by_commas(first, second.drop_last());
        assert(commas(first) + ", "@ + (commas(second.drop_last()) + ", "@ + second.last())
            =~= commas(first) + ", "@ + commas(second.drop_last()) + ", "@ + second.last());
    }
}

/// The items of an array and the fields of an object are joined by commas too, each
/// field as its name, quoted, and what it holds.
pub proof fn items_and_fields_are_joined_by_commas(
    items: Seq<JsonView>,
    fields: Seq<(Seq<char>, JsonView)>,
)
    ensures
        items_text(items) == commas(Seq::new(items.len(), |i: int| written(items[i]))),
        fields_text(fields) == commas(
            Seq::new(fields.len(), |i: int| quoted(fields[i].0) + ": "@ + written(fields[i].1)),
        ),
    decreases items.len(), fields.len(),
{
    let parts = Seq::new(items.len(), |i: int| written(items[i]));
    let pairs = Seq::new(
        fields.len(),
        |i: int| quoted(fields[i].0) + ": "@ + written(fields[i].1),
    );
    if items.len() > 0 {
        let less = items.drop_last();
        items_and_fields_are_joined_by_commas(less, fields);
        assert(parts.drop_last() =~= Seq::new(less.len(), |i: int| written(less[i])));
    }
    if fields.len() > 0 {
        let less = fields.drop_last();
        items_and_fields_are_joined_by_commas(items, less);
        assert(pairs.drop_last() =~= Seq::new(
            less.len(),
            |i: int| quoted(less[i].0) + ": "@ + written(less[i].1),
        ));
    }
}

/// No two codes are called the same.
pub proof fn codes_are_told_apart(a: Code, b: Code)
    requires
        code_text(a) == code_text(b),
    ensures
        a == b,
{
    reveal_strlit("Rejected");
    reveal_strlit("NoSuchLog");
    reveal_strlit("LogExists");
    reveal_strlit("NotReducible");
    reveal_strlit("OutOfRange");
    reveal_strlit("BadId");
    reveal_strlit("Unauthorized");
    reveal_strlit("Malformed");
    reveal_strlit("Storage");
    reveal_strlit("Backpressure");
    reveal_strlit("Internal");
    assert("Rejected"@.len() == 8 && "Rejected"@[0] == 'R');
    assert("NoSuchLog"@.len() == 9 && "NoSuchLog"@[0] == 'N');
    assert("LogExists"@.len() == 9 && "LogExists"@[0] == 'L');
    assert("NotReducible"@.len() == 12 && "NotReducible"@[0] == 'N');
    assert("OutOfRange"@.len() == 10 && "OutOfRange"@[0] == 'O');
    assert("BadId"@.len() == 5 && "BadId"@[0] == 'B');
    assert("Unauthorized"@.len() == 12 && "Unauthorized"@[0] == 'U');
    assert("Malformed"@.len() == 9 && "Malformed"@[0] == 'M');
    assert("Storage"@.len() == 7 && "Storage"@[0] == 'S');
    assert("Backpressure"@.len() == 12 && "Backpressure"@[0] == 'B');
    assert("Internal"@.len() == 8 && "Internal"@[0] == 'I');
}

} // verus!
