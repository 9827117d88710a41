//! The client's side of HTTP.

use lug::client::error::Error;
use lug::client::http::{
    plan, reply_body, sse_data, stream_query, stream_status, Body, Endpoint, Head, Need, Plan,
    Sessions,
};
use lug::load::http::query;
use lug::proto::{Mode, Request, Response};
use lug::words::escape;

#[test]
fn origins_parse() {
    assert_eq!(
        Endpoint::parse("http://127.0.0.1:7717", "t")
            .unwrap()
            .authority,
        "127.0.0.1:7717"
    );
    assert_eq!(
        Endpoint::parse("http://localhost/", "t").unwrap().authority,
        "localhost:80"
    );
    assert!(Endpoint::parse("127.0.0.1:7717", "t").is_err());
}

#[test]
fn bad_origins_say_why() {
    assert_eq!(
        Endpoint::parse("ftp://x", "t").unwrap_err().message(),
        "http transport: ftp://x is not an http:// origin"
    );
    assert_eq!(
        Endpoint::parse("http:///x", "t").unwrap_err().message(),
        "http transport: http:///x has no host"
    );
}

/// Hand a body what it asks for, out of a stream of bytes.
fn drive(body: &mut Body, stream: &mut &[u8]) -> bool {
    match body.need() {
        Need::End => false,
        Need::Line => {
            let end = stream.iter().position(|b| *b == b'\n').map_or(stream.len(), |n| n + 1);
            let (line, rest) = stream.split_at(end);
            body.header(std::str::from_utf8(line).unwrap()).unwrap();
            *stream = rest;
            true
        }
        Need::Exactly(n) => {
            let (bytes, rest) = stream.split_at(n);
            body.feed(bytes);
            *stream = rest;
            true
        }
        Need::UpTo(n) => {
            let (bytes, rest) = stream.split_at(n.min(stream.len()));
            body.feed(bytes);
            *stream = rest;
            true
        }
    }
}

fn body_of(text: &str, chunked: bool, length: Option<usize>) -> Vec<u8> {
    let mut stream = text.as_bytes();
    let mut body = Body::new(chunked, length);
    while drive(&mut body, &mut stream) {}
    body.into_bytes()
}

#[test]
fn bodies_decode_however_they_are_framed() {
    // Content-Length, which is how a call comes back.
    assert_eq!(
        body_of("{\"t\":\"pong\"}", false, Some(12)),
        b"{\"t\":\"pong\"}"
    );
    // Chunked, which is how a real server sends an event stream.
    let chunked = "5\r\nhello\r\n1\r\n!\r\n0\r\n\r\n";
    assert_eq!(body_of(chunked, true, None), b"hello!");
    // Neither, meaning the body runs to the end of the connection.
    assert_eq!(body_of("loose", false, None), b"loose");
}

#[test]
fn sse_lines_come_out_of_chunks_whole() {
    let mut stream: &[u8] = b"8\r\ndata: {}\r\n3\r\n\n\n:\r\n0\r\n\r\n";
    let mut body = Body::new(true, None);
    let mut lines = Vec::new();
    loop {
        while let Some(line) = body.next_line() {
            lines.push(line);
        }
        if !drive(&mut body, &mut stream) {
            break;
        }
    }
    assert_eq!(lines[0], "data: {}");
    assert_eq!(lines[1], "");
}

#[test]
fn a_line_that_is_not_utf8_is_patched_up() {
    let mut body = Body::new(false, Some(4));
    body.feed(&[b'a', 0xff, b'b', b'\n']);
    assert_eq!(body.next_line(), Some("a\u{fffd}b".to_string()));
    assert_eq!(body.next_line(), None);
}

#[test]
fn bad_chunk_sizes_are_refused() {
    let mut body = Body::new(true, None);
    assert_eq!(
        body.header("xyz\r\n").unwrap_err().message(),
        "http transport: bad chunk size \"xyz\\r\\n\": invalid digit found in string"
    );
    assert!(body.header("ffffffffffffffff\r\n").is_err());
    body.header("1a;name=value\r\n").unwrap();
    assert_eq!(body.need(), Need::Exactly(28));
}

#[test]
fn heads_are_read_line_by_line() {
    let mut head = Head::begin("HTTP/1.1 200 OK\r\n").unwrap();
    assert_eq!(head.status, 200);
    assert!(!head.line("Content-Length: 12\r\n").unwrap());
    assert!(!head.line("TRANSFER-ENCODING: gzip, Chunked\r\n").unwrap());
    assert!(!head.line("no colon here\r\n").unwrap());
    assert_eq!(head.length, Some(12));
    assert!(head.chunked);
    assert!(head.line("\r\n").unwrap());
    assert_eq!(
        head.line("").unwrap_err().message(),
        "http transport: headers truncated"
    );
    assert_eq!(
        Head::begin("").unwrap_err().message(),
        "http transport: server closed before replying"
    );
    assert_eq!(
        Head::begin("nonsense").unwrap_err().message(),
        "http transport: bad status line \"nonsense\""
    );
}

#[test]
fn replies_and_refusals() {
    assert_eq!(reply_body(200, b"{}".to_vec()).unwrap(), Some(b"{}".to_vec()));
    assert_eq!(reply_body(200, Vec::new()).unwrap(), None);
    assert_eq!(
        reply_body(401, b"no".to_vec()).unwrap_err().message(),
        "http transport: status 401: no"
    );
    assert!(stream_status(200).is_ok());
    assert_eq!(
        stream_status(404).unwrap_err().message(),
        "http transport: stream refused with status 404"
    );
    assert_eq!(sse_data("data: {\"t\":1} "), Some("{\"t\":1}".to_string()));
    assert_eq!(sse_data(": lug"), None);
}

#[test]
fn requests_are_spelled_out() {
    let at = Endpoint::parse("http://127.0.0.1:7717", "tok").unwrap();
    assert_eq!(
        at.stream_head("id=1"),
        "GET /v1/stream?id=1 HTTP/1.1\r\nhost: 127.0.0.1:7717\r\nauthorization: Bearer tok\r\naccept: text/event-stream\r\n\r\n"
    );
    assert_eq!(
        at.call_head(2, &Some("s1".to_string())),
        "POST /v1/call HTTP/1.1\r\nhost: 127.0.0.1:7717\r\nauthorization: Bearer tok\r\ncontent-type: application/json\r\ncontent-length: 2\r\nx-lug-session: s1\r\nconnection: close\r\n\r\n"
    );
    assert!(!at.call_head(2, &None).contains("x-lug-session"));
}

#[test]
fn only_subscriptions_get_a_stream_and_only_their_uplink_a_session() {
    let subscribe = Request::Subscribe {
        id: 3,
        log: "a/b c".to_string(),
        from: 7,
        mode: Mode::Records,
        credit: 8,
    };
    match plan(subscribe) {
        Plan::Stream { id, query } => {
            assert_eq!(id, 3);
            assert_eq!(query, "id=3&log=a%2Fb%20c&from=7&mode=records&credit=8");
        }
        Plan::Call { .. } => panic!("a subscription is not a call"),
    }
    for (request, wants) in [
        (Request::Credit { id: 3, grant: 1 }, true),
        (Request::Cancel { id: 3 }, true),
        (Request::Ping { id: 4 }, false),
    ] {
        match plan(request) {
            Plan::Call { needs_session, .. } => assert_eq!(needs_session, wants),
            Plan::Stream { .. } => panic!("not a stream"),
        }
    }
}

#[test]
fn sessions_are_kept_as_streams_announce_them() {
    let mut sessions = Sessions::new();
    sessions.note(5, &Response::Pong { id: 5 });
    assert_eq!(sessions.get(5), None);
    sessions.note(
        5,
        &Response::Welcome { id: 5, version: 1, max_frame: 1, session: Some("abc".to_string()) },
    );
    assert_eq!(sessions.get(5), Some("abc".to_string()));
    sessions.remove(5);
    assert_eq!(sessions.get(5), None);
}

#[test]
fn log_names_survive_the_query() {
    assert_eq!(
        stream_query(3, "a/b c", 7, Mode::Reducible, 8),
        "id=3&log=a%2Fb%20c&from=7&mode=reducible&credit=8"
    );
}

#[test]
fn query_escapes_path_and_header_delimiters() {
    assert_eq!(query("a&b /"), "a%26b%20%2F");
    assert_eq!(escape("\u{e9}-._~"), "%C3%A9-._~");
}

#[test]
fn errors_say_what_happened() {
    assert_eq!(
        Error::Timeout { id: 4, elapsed: 1_500_000_000 }.message(),
        "request 4 timed out after 1.5s"
    );
    assert_eq!(Error::Closed.message(), "hub is closed");
    assert_eq!(
        Error::Connect { target: "x".to_string(), reason: "y".to_string() }.message(),
        "no connection to x: y"
    );
    assert_eq!(
        Error::Overrun { id: 9 }.message(),
        "subscription 9 overran its credit window"
    );
    assert_eq!(
        Error::Disconnected { id: 9 }.message(),
        "connection lost with request 9 in flight"
    );
    assert_eq!(Error::Io("broken".to_string()).message(), "broken");
    assert_eq!(
        Error::Codec(lug::proto::codec::Error::TooLarge(17_000_000)).message(),
        "frame codec failed: frame of 17000000 bytes exceeds the 16777216 byte limit"
    );
    assert_eq!(
        Error::View(lug::cavlc::error::Error::RootMustBeObject).message(),
        "view does not fold: the root must be an object"
    );
}
