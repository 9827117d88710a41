//! Numerals, words and frames in words.

use lug::json::{Json, Number};
use lug::proto::show::show;
use lug::proto::{Code, LogInfo, Record, Response};
use lug::text::{decimal_text, parse_unsigned, place, read_unsigned, same, Place};
use lug::words::{
    escape, first_word, has_part, lowered, second_word, strip_prefix, text_after, text_before,
    trimmed, trimmed_end,
};

#[test]
fn what_is_no_number_is_told() {
    let long = "99999999999999999999999x";
    for text in ["", "+", "-", "-1", "x", "1x", "1_0", "18446744073709551616", long, "7"] {
        assert_eq!(
            read_unsigned(text, 10, u64::MAX),
            text.parse::<u64>().map_err(|e| e.to_string())
        );
        assert_eq!(
            read_unsigned(text, 16, u16::MAX as u64),
            u16::from_str_radix(text, 16).map(|n| n as u64).map_err(|e| e.to_string())
        );
    }
}

#[test]
fn numerals_read_back_as_written() {
    for n in [0, 7, 10, 999, u64::MAX] {
        assert_eq!(decimal_text(n), n.to_string());
        assert_eq!(parse_unsigned(&n.to_string(), 10, u64::MAX), Some(n));
    }
    assert_eq!(parse_unsigned("+12", 10, 100), Some(12));
    assert_eq!(parse_unsigned("ff", 16, 1000), Some(255));
    assert_eq!(parse_unsigned("", 10, 100), None);
    assert_eq!(parse_unsigned("-1", 10, 100), None);
    assert_eq!(parse_unsigned("101", 10, 100), None);
    assert_eq!(parse_unsigned("18446744073709551616", 10, u64::MAX), None);
}

#[test]
fn texts_are_ordered_by_their_characters() {
    assert!(same("ab", "ab"));
    assert!(!same("ab", "abc"));
    assert_eq!(place("ab", "abc"), Place::Before);
    assert_eq!(place("b", "abc"), Place::After);
    assert_eq!(place("abc", "abc"), Place::Same);
}

#[test]
fn words_are_found() {
    assert_eq!(trimmed(" \ta b\r\n"), "a b");
    assert_eq!(trimmed_end(" a \n"), " a");
    assert_eq!(text_before("k: v", ':'), "k");
    assert_eq!(text_after("k: v", ':'), Some(" v".to_string()));
    assert_eq!(text_after("kv", ':'), None);
    assert_eq!(first_word("  a b"), Some("a".to_string()));
    assert_eq!(second_word("  a  b c"), Some("b".to_string()));
    assert_eq!(second_word("a"), None);
    assert_eq!(lowered("ChUnKeD"), "chunked");
    assert!(has_part("gzip, chunked", "chunked"));
    assert!(!has_part("gzip", "chunked"));
    assert_eq!(strip_prefix("data: x", "data:"), Some(" x".to_string()));
    assert_eq!(strip_prefix("dat", "data:"), None);
    assert_eq!(escape("a b/c~"), "a%20b%2Fc~");
}

#[test]
fn frames_are_shown_with_what_they_carry() {
    let records = vec![
        Record { version: 1, patch: Json::Text("a\"b".to_string()) },
        Record {
            version: 2,
            patch: Json::Object(vec![
                ("k".to_string(), Json::Array(vec![Json::Null, Json::Bool(true)])),
                ("n".to_string(), Json::Number(Number::Negative(-5))),
            ]),
        },
    ];
    assert_eq!(
        show(&Response::Records { id: 9, records }),
        "Records { id: 9, records: [Record { version: 1, patch: String(\"a\\\"b\") }, \
         Record { version: 2, patch: Object {\"k\": Array [Null, Bool(true)], \"n\": Number(-5)} }] }"
    );
    assert_eq!(
        show(&Response::Ack { id: 1, versions: vec![3, 4], synced: 4 }),
        "Ack { id: 1, versions: [3, 4], synced: 4 }"
    );
    let info = LogInfo {
        name: "l".to_string(),
        reducible: true,
        version: 1,
        oldest: 0,
        subscribers: 2,
    };
    assert_eq!(
        show(&Response::Logs { id: 1, logs: vec![info] }),
        "Logs { id: 1, logs: [LogInfo { name: \"l\", reducible: true, version: 1, oldest: 0, subscribers: 2 }] }"
    );
    assert_eq!(
        show(&Response::Error { id: 1, code: Code::BadId, message: "m".to_string() }),
        "Error { id: 1, code: BadId, message: \"m\" }"
    );
    assert_eq!(
        show(&Response::Welcome { id: 0, version: 1, max_frame: 2, session: Some("s".to_string()) }),
        "Welcome { id: 0, version: 1, max_frame: 2, session: Some(\"s\") }"
    );
    assert_eq!(show(&Response::Accepted { id: 4 }), "Ok { id: 4 }");
    assert_eq!(
        show(&Response::View { id: 4, version: 2, value: Json::Number(Number::Negative(i64::MIN)) }),
        "View { id: 4, version: 2, value: Number(-9223372036854775808) }"
    );
    for text in ["1.5", "1e300", "-0.0", "0.0"] {
        assert_eq!(
            show(&Response::View {
                id: 4,
                version: 2,
                value: Json::Number(Number::Double(text.to_string())),
            }),
            format!("View {{ id: 4, version: 2, value: Number({text}) }}")
        );
    }
    assert_eq!(
        show(&Response::Gap { id: 4, from: 2, to: 3 }),
        "Gap { id: 4, from: 2, to: 3 }"
    );
}

#[test]
fn objects_are_shown_by_their_keys() {
    let value = Json::Object(vec![
        ("b".to_string(), Json::Null),
        ("a".to_string(), Json::Array(vec![Json::Bool(true), Json::Number(Number::Unsigned(2))])),
    ]);
    assert_eq!(
        show(&Response::View { id: 3, version: 4, value }),
        "View { id: 3, version: 4, value: Object {\"a\": Array [Bool(true), Number(2)], \"b\": Null} }"
    );
}
