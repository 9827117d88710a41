//! HTTP as a load run speaks it.

use lug::client::http::Sessions;
use lug::load::error::error;
use lug::load::http::{
    accepted, collect, gather, opened, request_head, route, stream_over, Events, Need, Reply,
    Route, LINE_LIMIT,
};
use lug::load::wire::{frame_length, hello, moved, validate_welcome, Endpoint, Traffic};
use lug::proto::codec::MAX_FRAME;
use lug::proto::{Mode, Request, Response};

/// Bytes that arrive a few at a time.
struct Wire<'a> {
    rest: &'a [u8],
    step: usize,
}

impl Wire<'_> {
    fn line(&mut self) -> Result<Vec<u8>, String> {
        let mut line = Vec::new();
        loop {
            let available = &self.rest[..self.step.min(self.rest.len())];
            let (used, done) = gather(&mut line, available, LINE_LIMIT).map_err(|e| e.message)?;
            self.rest = &self.rest[used..];
            if done {
                return Ok(line);
            }
        }
    }

    fn bytes(&mut self, most: usize) -> Vec<u8> {
        let n = most.min(self.step).min(self.rest.len());
        let part = self.rest[..n].to_vec();
        self.rest = &self.rest[n..];
        part
    }
}

/// The next part of a body; nothing at its end.
fn part(reply: &mut Reply, wire: &mut Wire) -> Result<Vec<u8>, String> {
    loop {
        match reply.need() {
            Need::Header => reply.header(&wire.line()?).map_err(|e| e.message)?,
            Need::Size => reply.size(&wire.line()?).map_err(|e| e.message)?,
            Need::Trailer => reply.trailer(&wire.line()?).map_err(|e| e.message)?,
            Need::Bytes(most) => {
                let part = wire.bytes(most);
                reply.took(part.len()).map_err(|e| e.message)?;
                return Ok(part);
            }
            Need::Ending => {
                let mut two = wire.bytes(2);
                while two.len() < 2 {
                    let more = wire.bytes(2 - two.len());
                    assert!(!more.is_empty());
                    two.extend(more);
                }
                reply.ending(two[0], two[1]).map_err(|e| e.message)?;
            }
            Need::Nothing => return Ok(Vec::new()),
        }
    }
}

/// The events of a stream, read `step` bytes at a time.
fn events(text: &str, step: usize) -> (Vec<String>, String) {
    let mut wire = Wire { rest: text.as_bytes(), step };
    let status = wire.line().unwrap();
    accepted(&status, "GET", "/v1/stream").unwrap();
    let mut reply = Reply::begin();
    let mut events = Events::new();
    let mut seen = Vec::new();
    loop {
        while let Some(data) = events.next() {
            seen.push(String::from_utf8(data).unwrap());
        }
        let part = match part(&mut reply, &mut wire) {
            Ok(part) => part,
            Err(why) => return (seen, why),
        };
        if let Err(e) = events.feed(&part) {
            return (seen, e.message);
        }
    }
}

#[test]
fn raw_http_mock_exercises_chunk_boundaries_and_comments() {
    let mut text = "HTTP/1.1 200 OK\r\nTransfer-Encoding: chunked\r\n\r\n".to_string();
    for part in [": comment\n\nda", "ta: {\"t\":\"pong\",\"id\":9}\n\n"] {
        text.push_str(&format!("{:x}\r\n{}\r\n", part.len(), part));
    }
    text.push_str("0\r\n\r\n");
    for step in [1, 2, 3, 7, 1000] {
        let (seen, why) = events(&text, step);
        assert_eq!(seen, vec![" {\"t\":\"pong\",\"id\":9}\n".to_string()]);
        assert_eq!(why, "SSE stream ended before Cancel");
    }
}

/// The whole body of a call.
fn body(text: &str, step: usize) -> Result<Vec<u8>, String> {
    let mut wire = Wire { rest: text.as_bytes(), step };
    let mut reply = Reply::begin();
    let mut whole = Vec::new();
    loop {
        let part = part(&mut reply, &mut wire)?;
        if part.is_empty() {
            return Ok(whole);
        }
        collect(&mut whole, &part).map_err(|e| e.message)?;
    }
}

#[test]
fn bodies_end_where_they_say() {
    assert_eq!(body("Content-Length: 5\r\n\r\nhello and more", 2).unwrap(), b"hello");
    assert_eq!(body("\r\nuntil the end", 4).unwrap(), b"until the end");
    assert_eq!(
        body("Transfer-Encoding: chunked\r\n\r\n3\r\nabc\r\n2;x=y\r\nde\r\n0\r\nTrailer: 1\r\n\r\n", 3)
            .unwrap(),
        b"abcde"
    );
    assert_eq!(body("Content-Length: 5\r\n\r\nhel", 9).unwrap_err(), "truncated HTTP body");
    assert_eq!(
        body("Content-Length: x\r\n\r\n", 9).unwrap_err(),
        "invalid digit found in string"
    );
    assert_eq!(
        body("Transfer-Encoding: chunked\r\n\r\nzz\r\n", 9).unwrap_err(),
        "invalid digit found in string"
    );
    assert_eq!(
        body("Transfer-Encoding: chunked\r\n\r\n1\r\nabc", 9).unwrap_err(),
        "invalid HTTP chunk terminator"
    );
    assert_eq!(body("Content-Length: 5", 9).unwrap_err(), "EOF inside HTTP line");
}

#[test]
fn heads_and_lines_are_bounded() {
    let long = vec![b'x'; 40];
    let mut line = Vec::new();
    assert_eq!(
        gather(&mut line, &long, 39).unwrap_err().message,
        "HTTP line exceeds 39 bytes"
    );
    let mut whole = vec![0; MAX_FRAME as usize];
    assert_eq!(
        collect(&mut whole, &[0]).unwrap_err().message,
        "HTTP response exceeds frame limit"
    );
    assert_eq!(
        accepted(b"HTTP/1.1 404 Not Found\r\n", "GET", "/x").unwrap_err().message,
        "HTTP GET /x returned status 404"
    );
    assert_eq!(
        accepted(b"garbage\r\n", "GET", "/x").unwrap_err().message,
        "cannot parse integer from empty string"
    );
    let broken = b"HTTP/1.1 \xff\r\n";
    assert_eq!(
        accepted(broken, "GET", "/x").unwrap_err().message,
        std::str::from_utf8(broken).unwrap_err().to_string()
    );
    assert_eq!(
        accepted(b"HTTP/1.1 99999\r\n", "GET", "/x").unwrap_err().message,
        "99999".parse::<u16>().unwrap_err().to_string()
    );
}

fn endpoint() -> Endpoint {
    Endpoint {
        socket: String::new(),
        http: Some("127.0.0.1:80".to_string()),
        token: "tok".to_string(),
    }
}

#[test]
fn requests_carry_token_and_session() {
    let head = request_head(&endpoint(), "POST", "/v1/call", Some("s1"), 3).unwrap();
    assert!(head.starts_with("POST /v1/call HTTP/1.1\r\n"));
    assert!(head.contains("127.0.0.1:80"));
    assert!(head.contains("Bearer tok"));
    assert!(head.contains("s1\r\n"));
    assert!(head.ends_with("\r\n\r\n"));
    assert_eq!(
        request_head(&endpoint(), "POST", "/", Some("a b"), 3).unwrap_err().message,
        "invalid HTTP session header"
    );
    let none = Endpoint { http: None, ..endpoint() };
    assert_eq!(
        request_head(&none, "GET", "/", None, 0).unwrap_err().message,
        "HTTP endpoint missing address"
    );
}

#[test]
fn requests_find_their_stream() {
    let mut sessions = Sessions::new();
    let subscribe = Request::Subscribe {
        id: 3,
        log: "a&b".to_string(),
        from: 0,
        mode: Mode::Records,
        credit: 8,
    };
    match route(&mut sessions, &subscribe) {
        Route::Open { id, path } => {
            assert_eq!(id, 3);
            assert_eq!(path, "/v1/stream?id=3&log=a%26b&from=0&mode=records&credit=8");
        }
        Route::Call { .. } => panic!("a subscription opens a stream"),
    }
    let welcome = |id: u64, session: Option<&str>| Response::Welcome {
        id,
        version: 1,
        max_frame: MAX_FRAME,
        session: session.map(str::to_string),
    };
    assert_eq!(
        opened(&mut sessions, 3, welcome(4, Some("s"))).unwrap_err().message,
        "SSE Welcome returned the wrong stream id"
    );
    assert_eq!(
        opened(&mut sessions, 3, welcome(3, None)).unwrap_err().message,
        "SSE Welcome omitted session"
    );
    assert_eq!(
        opened(&mut sessions, 3, Response::Pong { id: 3 }).unwrap_err().message,
        "invalid Hello response Pong { id: 3 }"
    );
    assert_eq!(
        opened(&mut sessions, 3, welcome(3, Some("s"))).unwrap(),
        Response::Accepted { id: 3 }
    );
    match route(&mut sessions, &Request::Credit { id: 3, grant: 1 }) {
        Route::Call { session, ends } => {
            assert_eq!(session.as_deref(), Some("s"));
            assert!(!ends);
        }
        Route::Open { .. } => panic!("credit is a call"),
    }
    match route(&mut sessions, &Request::Cancel { id: 3 }) {
        Route::Call { session, ends } => {
            assert_eq!(session.as_deref(), Some("s"));
            assert!(ends);
        }
        Route::Open { .. } => panic!("a cancellation is a call"),
    }
    assert_eq!(sessions.get(3), None);
    assert!(stream_over(&Ok(Response::End { id: 3 })));
    assert!(stream_over(&Err(error("broken".to_string()))));
    assert!(!stream_over(&Ok(Response::Pong { id: 3 })));
}

#[test]
fn greetings_are_checked() {
    assert_eq!(hello(), Request::Hello { id: 0, version: 1 });
    let welcome = |version: u16, max_frame: u32| Response::Welcome {
        id: 0,
        version,
        max_frame,
        session: None,
    };
    assert!(validate_welcome(&welcome(1, 1)).is_ok());
    assert_eq!(
        validate_welcome(&welcome(2, 1)).unwrap_err().message,
        "invalid Hello response Welcome { id: 0, version: 2, max_frame: 1, session: None }"
    );
    assert!(validate_welcome(&welcome(1, 0)).is_err());
}

#[test]
fn frames_are_bounded_and_traffic_is_counted() {
    assert_eq!(frame_length(42).unwrap(), 42);
    assert_eq!(frame_length(MAX_FRAME).unwrap(), MAX_FRAME as usize);
    assert_eq!(
        frame_length(MAX_FRAME + 1).unwrap_err().message,
        "peer frame 16777217 exceeds 16777216"
    );
    let traffic = Traffic { tx: 4, rx: 9, sockets: 1 };
    assert_eq!(traffic.snapshot(), (4, 9));
    assert_eq!(moved((4, 9), (5, 20)), (1, 11));
    assert_eq!(moved((u64::MAX, 0), (1, 0)), (2, 0));
    assert_eq!(Traffic::default().snapshot(), (0, 0));
}
