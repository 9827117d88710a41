//! The HTTP transport: calls are POSTs, subscriptions are SSE streams.
//!
//! The same frames travel here as on a socket, minus the length prefix, which
//! HTTP does not need: `Content-Length` delimits a call and `data:` lines
//! delimit a stream. An SSE response has no uplink, so `Credit` and `Cancel`
//! go out as calls carrying the session the stream announced in its
//! `Welcome`.

use super::error::Error;
use crate::proto::http::{AUTH_HEADER, CALL, SESSION_HEADER, STREAM};
use crate::proto::{Id, Mode, Request, Response};
use crate::quote::{quote, quoted};
use crate::text::{
    decimal, decimal_text, number_in, parse_unsigned, read_unsigned, same, unsigned_up_to,
};
use crate::words::{
    after, before, contains, escape, escaped, first, first_byte, has_part, index_of_byte, lossy,
    lower, lowered, second_word, starts_with, strip_prefix, text_after, text_before, text_lossy,
    trim, trim_end, trimmed, trimmed_end, word,
};
use std::collections::HashMap;
use vstd::prelude::*;

verus! {

/// How long a `Credit` or `Cancel` waits for its stream to announce a
/// session, in nanoseconds. Only a startup race, and a short one.
pub const SESSION_WAIT: u64 = 5_000_000_000;

#[derive(Debug, PartialEq, Eq)]
pub struct Endpoint {
    pub authority: String,
    pub token: String,
}

/// What stands between `http://` and the next slash, if anything does.
pub open spec fn host_of(base: Seq<char>) -> Option<Seq<char>> {
    if starts_with(base, "http://"@) {
        Some(before(base.skip("http://"@.len() as int), '/'))
    } else {
        None
    }
}

/// A host with a port, which is 80 where none is given.
pub open spec fn with_port(host: Seq<char>) -> Seq<char> {
    if first(host, ':') < host.len() {
        host
    } else {
        host + ":80"@
    }
}

impl Endpoint {
    /// `http://host:port`, with or without a trailing slash.
    pub fn parse(base: &str, token: &str) -> (r: Result<Self, Error>)
        ensures
            match host_of(base@) {
                None => r is Err && r->Err_0 is Http && r->Err_0->Http_0@ == base@
                    + " is not an http:// origin"@,
                Some(host) => if host.len() == 0 {
                    r is Err && r->Err_0 is Http && r->Err_0->Http_0@ == base@ + " has no host"@
                } else {
                    r is Ok && r->Ok_0.authority@ == with_port(host) && r->Ok_0.token@ == token@
                },
            },
    {
        let rest = match strip_prefix(base, "http://") {
            Some(rest) => rest,
            None => {
                let mut message = base.to_owned();
                message.append(" is not an http:// origin");
                return Err(Error::Http(message));
            },
        };
        let mut authority = text_before(rest.as_str(), '/');
        if authority.as_str().is_empty() {
            let mut message = base.to_owned();
            message.append(" has no host");
            return Err(Error::Http(message));
        }
        if text_after(authority.as_str(), ':').is_none() {
            authority.append(":80");
        }
        Ok(Endpoint { authority, token: token.to_owned() })
    }

    /// The head of a request that opens a stream.
    pub fn stream_head(&self, query: &str) -> (r: String)
        ensures
            r@ == "GET "@ + STREAM@ + "?"@ + query@ + " HTTP/1.1\r\nhost: "@ + self.authority@
                + "\r\n"@ + AUTH_HEADER@ + ": Bearer "@ + self.token@
                + "\r\naccept: text/event-stream\r\n\r\n"@,
    {
        let mut head = String::from_str("GET ");
        head.append(STREAM);
        head.append("?");
        head.append(query);
        head.append(" HTTP/1.1\r\nhost: ");
        head.append(self.authority.as_str());
        head.append("\r\n");
        head.append(AUTH_HEADER);
        head.append(": Bearer ");
        head.append(self.token.as_str());
        head.append("\r\naccept: text/event-stream\r\n\r\n");
        head
    }

    /// The head of a call whose body has `len` bytes.
    pub fn call_head(&self, len: usize, session: &Option<String>) -> (r: String)
        ensures
            r@ == "POST "@ + CALL@ + " HTTP/1.1\r\nhost: "@ + self.authority@ + "\r\n"@
                + AUTH_HEADER@ + ": Bearer "@ + self.token@
                + "\r\ncontent-type: application/json\r\ncontent-length: "@ + decimal(len as nat)
                + "\r\n"@ + (match *session {
                Some(s) => SESSION_HEADER@ + ": "@ + s@ + "\r\n"@,
                None => Seq::empty(),
            }) + "connection: close\r\n\r\n"@,
    {
        let mut head = String::from_str("POST ");
        head.append(CALL);
        head.append(" HTTP/1.1\r\nhost: ");
        head.append(self.authority.as_str());
        head.append("\r\n");
        head.append(AUTH_HEADER);
        head.append(": Bearer ");
        head.append(self.token.as_str());
        head.append("\r\ncontent-type: application/json\r\ncontent-length: ");
        head.append(decimal_text(len as u64).as_str());
        head.append("\r\n");
        let ghost so_far = head@;
        match session {
            Some(s) => {
                let mut line = String::from_str(SESSION_HEADER);
                line.append(": ");
                line.append(s.as_str());
                line.append("\r\n");
                head.append(line.as_str());
            },
            None => {
                assert(head@ =~= so_far + Seq::empty());
            },
        }
        head.append("connection: close\r\n\r\n");
        head
    }
}

pub open spec fn mode_name(mode: Mode) -> Seq<char> {
    match mode {
        Mode::Records => "records"@,
        Mode::Reducible => "reducible"@,
    }
}

/// The query that opens a stream.
pub open spec fn query_of(id: Id, log: Seq<char>, from: u64, mode: Mode, credit: u32) -> Seq<char> {
    "id="@ + decimal(id as nat) + "&log="@ + escaped(vstd::utf8::encode_utf8(log)) + "&from="@
        + decimal(from as nat) + "&mode="@ + mode_name(mode) + "&credit="@ + decimal(credit as nat)
}

pub fn stream_query(id: Id, log: &str, from: u64, mode: Mode, credit: u32) -> (r: String)
    ensures
        r@ == query_of(id, log@, from, mode, credit),
{
    let mut out = String::from_str("id=");
    out.append(decimal_text(id).as_str());
    out.append("&log=");
    out.append(escape(log).as_str());
    out.append("&from=");
    out.append(decimal_text(from).as_str());
    out.append("&mode=");
    match mode {
        Mode::Records => out.append("records"),
        Mode::Reducible => out.append("reducible"),
    }
    out.append("&credit=");
    out.append(decimal_text(credit as u64).as_str());
    out
}

// ---------------------------------------------------------------------
// What goes where.

/// What carries a request.
#[derive(Debug)]
pub enum Plan {
    /// A connection of its own, held open for the frames of stream `id`.
    Stream { id: Id, query: String },
    /// A short connection; the flag says whether the request has to reach an
    /// open stream, by its session.
    Call { request: Request, needs_session: bool },
}

/// A subscription goes out as a stream, and anything else as a call.
pub open spec fn planned(request: Request, r: Plan) -> bool {
    match request {
        Request::Subscribe { id, log, from, mode, credit } => r is Stream && r->Stream_id == id
            && r->query@ == query_of(id, log@, from, mode, credit),
        other => r == (Plan::Call {
            request: other,
            needs_session: other is Credit || other is Cancel,
        }),
    }
}

/// Fan requests out over HTTP. Each call is its own short connection, so
/// concurrency is free and nothing needs a writer lock; only subscriptions
/// hold a connection open.
pub fn plan(request: Request) -> (r: Plan)
    ensures
        planned(request, r),
{
    match request {
        Request::Subscribe { id, log, from, mode, credit } => Plan::Stream {
            id,
            query: stream_query(id, log.as_str(), from, mode, credit),
        },
        other => {
            let needs_session = matches!(other, Request::Credit { .. } | Request::Cancel { .. });
            Plan::Call { request: other, needs_session }
        },
    }
}

/// The sessions after a frame arrived on stream `id`.
pub open spec fn noted(sessions: Map<u64, String>, id: Id, frame: Response) -> Map<u64, String> {
    match frame {
        Response::Welcome { session: Some(session), .. } => sessions.insert(id, session),
        _ => sessions,
    }
}

/// Stream ids to the session the server issued for them.
pub struct Sessions {
    map: HashMap<u64, String>,
}

impl Sessions {
    pub closed spec fn view(&self) -> Map<u64, String> {
        self.map@
    }

    pub fn new() -> (r: Self)
        ensures
            r@ == Map::<u64, String>::empty(),
    {
        Sessions { map: HashMap::new() }
    }

    pub fn insert(&mut self, id: Id, session: String)
        ensures
            final(self)@ == old(self)@.insert(id, session),
    {
        self.map.insert(id, session);
    }

    pub fn remove(&mut self, id: Id)
        ensures
            final(self)@ == old(self)@.remove(id),
    {
        self.map.remove(&id);
    }

    pub fn get(&self, id: Id) -> (r: Option<String>)
        ensures
            r == if self@.contains_key(id) {
                Some(self@[id])
            } else {
                None
            },
    {
        match self.map.get(&id) {
            Some(session) => Some(session.clone()),
            None => None,
        }
    }

    /// A frame arrived on stream `id`: its `Welcome` says the session.
    pub fn note(&mut self, id: Id, frame: &Response)
        ensures
            final(self)@ == noted(old(self)@, id, *frame),
    {
        match frame {
            Response::Welcome { session: Some(session), .. } => {
                self.map.insert(id, session.clone());
            },
            _ => {},
        }
    }
}

pub open spec fn admitted(status: u16, r: Result<(), Error>) -> bool {
    &&& status == 200 ==> r is Ok
    &&& status != 200 ==> r is Err && r->Err_0 is Http && r->Err_0->Http_0@
        == "stream refused with status "@ + decimal(status as nat)
}

/// A stream that answers anything but 200 was refused.
pub fn stream_status(status: u16) -> (r: Result<(), Error>)
    ensures
        admitted(status, r),
{
    if status == 200 {
        return Ok(());
    }
    let mut message = String::from_str("stream refused with status ");
    message.append(decimal_text(status as u64).as_str());
    Err(Error::Http(message))
}

/// The frame that a line of an event stream carries, as JSON, if it does.
pub open spec fn line_data(line: Seq<char>) -> Option<Seq<char>> {
    if starts_with(line, "data:"@) {
        Some(trim(line.skip("data:"@.len() as int)))
    } else {
        None
    }
}

pub fn sse_data(line: &str) -> (r: Option<String>)
    ensures
        match r {
            Some(data) => line_data(line@) == Some(data@),
            None => line_data(line@) is None,
        },
{
    match strip_prefix(line, "data:") {
        Some(rest) => Some(trimmed(rest.as_str())),
        None => None,
    }
}

pub open spec fn replied(
    status: u16,
    body: Vec<u8>,
    r: Result<Option<Vec<u8>>, Error>,
) -> bool {
    &&& status != 200 ==> r is Err && r->Err_0 is Http && r->Err_0->Http_0@ == "status "@ + decimal(
        status as nat,
    ) + ": "@ + lossy(body@)
    &&& status == 200 ==> r == Ok::<Option<Vec<u8>>, Error>(
        if body@.len() == 0 {
            None
        } else {
            Some(body)
        },
    )
}

/// The body of a reply: the frame it holds, as JSON. An empty reply is a call
/// the server had nothing to say about; whatever it triggered rides the
/// stream.
pub fn reply_body(status: u16, body: Vec<u8>) -> (r: Result<Option<Vec<u8>>, Error>)
    ensures
        replied(status, body, r),
{
    if status != 200 {
        let mut message = String::from_str("status ");
        message.append(decimal_text(status as u64).as_str());
        message.append(": ");
        message.append(text_lossy(body.as_slice()).as_str());
        return Err(Error::Http(message));
    }
    if body.len() == 0 {
        return Ok(None);
    }
    Ok(Some(body))
}

// ---------------------------------------------------------------------
// Response heads.

#[derive(Clone, Copy, Debug, PartialEq, Eq, Structural)]
pub struct Head {
    pub status: u16,
    pub chunked: bool,
    pub length: Option<usize>,
}

/// What a header line says of the body; other headers say nothing.
pub open spec fn with_header(head: Head, name: Seq<char>, value: Seq<char>) -> Head {
    if name == "content-length"@ {
        Head {
            length: match unsigned_up_to(value, 10, usize::MAX as nat) {
                Some(n) => Some(n as usize),
                None => None,
            },
            ..head
        }
    } else if name == "transfer-encoding"@ {
        Head { chunked: contains(lower(value), "chunked"@), ..head }
    } else {
        head
    }
}

/// `head` after one line, or `None` where the line ends it.
pub open spec fn with_line(head: Head, line: Seq<char>) -> Option<Head> {
    let text = trim_end(line);
    if text.len() == 0 {
        None
    } else {
        match after(text, ':') {
            None => Some(head),
            Some(value) => Some(with_header(head, lower(trim(before(text, ':'))), trim(value))),
        }
    }
}

impl Head {
    /// Read the status line; nothing at all means that the server closed.
    pub fn begin(line: &str) -> (r: Result<Self, Error>)
        ensures
            line@.len() == 0 ==> r is Err && r->Err_0 is Http && r->Err_0->Http_0@
                == "server closed before replying"@,
            line@.len() > 0 ==> {
                let status = match word(line@, 1) {
                    Some(text) => unsigned_up_to(text, 10, u16::MAX as nat),
                    None => None,
                };
                match status {
                    Some(n) => r == Ok::<Head, Error>(
                        Head { status: n as u16, chunked: false, length: None },
                    ),
                    None => r is Err && r->Err_0 is Http && r->Err_0->Http_0@
                        == "bad status line "@ + quoted(line@),
                }
            },
    {
        if line.is_empty() {
            return Err(Error::Http(String::from_str("server closed before replying")));
        }
        let status = match second_word(line) {
            Some(text) => parse_unsigned(text.as_str(), 10, u16::MAX as u64),
            None => None,
        };
        match status {
            Some(n) => Ok(Head { status: n as u16, chunked: false, length: None }),
            None => {
                let mut message = String::from_str("bad status line ");
                message.append(quote(line).as_str());
                Err(Error::Http(message))
            },
        }
    }

    /// Read one header line: whether it was the blank one that ends the head.
    pub fn line(&mut self, line: &str) -> (r: Result<bool, Error>)
        ensures
            line@.len() == 0 ==> r is Err && r->Err_0 is Http && r->Err_0->Http_0@
                == "headers truncated"@ && *final(self) == *old(self),
            line@.len() > 0 ==> match with_line(*old(self), line@) {
                None => r == Ok::<bool, Error>(true) && *final(self) == *old(self),
                Some(head) => r == Ok::<bool, Error>(false) && *final(self) == head,
            },
    {
        if line.is_empty() {
            return Err(Error::Http(String::from_str("headers truncated")));
        }
        let text = trimmed_end(line);
        if text.as_str().is_empty() {
            return Ok(true);
        }
        let value = match text_after(text.as_str(), ':') {
            Some(value) => trimmed(value.as_str()),
            None => return Ok(false),
        };
        let name = lowered(trimmed(text_before(text.as_str(), ':').as_str()).as_str());
        if same(name.as_str(), "content-length") {
            self.length = match parse_unsigned(value.as_str(), 10, usize::MAX as u64) {
                Some(n) => Some(n as usize),
                None => None,
            };
        } else if same(name.as_str(), "transfer-encoding") {
            self.chunked = has_part(lowered(value.as_str()).as_str(), "chunked");
        }
        Ok(false)
    }
}

// ---------------------------------------------------------------------
// Response bodies.

/// What a body wants next.
#[derive(Clone, Copy, Debug, PartialEq, Eq, Structural)]
pub enum Need {
    /// Nothing: this is the end of it.
    End,
    /// A line: the size of the next chunk.
    Line,
    /// Exactly so many bytes.
    Exactly(usize),
    /// Some bytes, up to so many; none means the end of the connection.
    UpTo(usize),
}

/// A response body, chunked or not, read as lines or as a whole.
#[derive(Debug)]
pub struct Body {
    chunked: bool,
    /// The size of a chunk whose bytes have not come yet.
    chunk: Option<usize>,
    remaining: Option<usize>,
    buf: Vec<u8>,
    done: bool,
}

#[verifier::ext_equal]
pub struct BodyView {
    pub chunked: bool,
    pub chunk: Option<usize>,
    pub remaining: Option<usize>,
    pub buf: Seq<u8>,
    pub done: bool,
}

/// The size that a chunk header announces, or why it announces none.
pub open spec fn chunk_size(line: Seq<char>) -> Result<nat, Seq<char>> {
    number_in(trim(before(trim(line), ';')), 16, usize::MAX as nat)
}

impl BodyView {
    pub open spec fn need(self) -> Need {
        if self.done {
            Need::End
        } else if self.chunked {
            match self.chunk {
                Some(n) => Need::Exactly((n + 2) as usize),
                None => Need::Line,
            }
        } else {
            match self.remaining {
                Some(n) => if n == 0 {
                    Need::End
                } else {
                    Need::Exactly(n)
                },
                None => Need::UpTo(4096),
            }
        }
    }

    /// A chunk header makes the body `after`, or fails.
    pub open spec fn announced(
        self,
        line: Seq<char>,
        after: BodyView,
        r: Result<(), Error>,
    ) -> bool {
        &&& line.len() == 0 ==> r is Ok && after == (BodyView { done: true, ..self })
        &&& line.len() > 0 ==> match chunk_size(line) {
            Ok(n) => if n == 0 {
                r is Ok && after == (BodyView { done: true, ..self })
            } else if n <= usize::MAX - 2 {
                r is Ok && after == (BodyView { chunk: Some(n as usize), ..self })
            } else {
                r is Err && r->Err_0 is Http && r->Err_0->Http_0@ == "bad chunk size "@ + quoted(
                    line,
                ) + ": number too large to fit in target type"@ && after == self
            },
            Err(why) => r is Err && r->Err_0 is Http && r->Err_0->Http_0@ == "bad chunk size "@
                + quoted(line) + ": "@ + why && after == self,
        }
    }

    /// The first whole line comes off, and the body is `after`.
    pub open spec fn cut(self, after: BodyView, r: Option<String>) -> bool {
        let at = first_byte(self.buf, 10);
        if at < self.buf.len() {
            &&& r is Some && r->0@ == trim_end(lossy(self.buf.take(at + 1)))
            &&& after == (BodyView { buf: self.buf.skip(at + 1), ..self })
        } else {
            r is None && after == self
        }
    }

    /// The body after the bytes it needed.
    pub open spec fn fed(self, bytes: Seq<u8>) -> BodyView {
        if self.chunked {
            // The line break after a chunk is not part of it.
            BodyView { buf: self.buf + bytes.take(bytes.len() - 2), chunk: None, ..self }
        } else {
            match self.remaining {
                Some(_) => BodyView { buf: self.buf + bytes, remaining: Some(0), ..self },
                None => BodyView {
                    buf: self.buf + bytes,
                    done: self.done || bytes.len() == 0,
                    ..self
                },
            }
        }
    }
}

impl Body {
    pub closed spec fn view(&self) -> BodyView {
        BodyView {
            chunked: self.chunked,
            chunk: self.chunk,
            remaining: self.remaining,
            buf: self.buf@,
            done: self.done,
        }
    }

    /// A chunk that is announced has room for the line break after it.
    pub open spec fn wf(&self) -> bool {
        self@.chunk is Some ==> 0 < self@.chunk->0 <= usize::MAX - 2
    }

    pub fn new(chunked: bool, length: Option<usize>) -> (r: Self)
        ensures
            r@ == (BodyView {
                chunked,
                chunk: None,
                remaining: length,
                buf: Seq::empty(),
                done: false,
            }),
            r.wf(),
    {
        let r = Body { chunked, chunk: None, remaining: length, buf: Vec::new(), done: false };
        assert(r@.buf =~= Seq::empty());
        r
    }

    /// What to read next.
    pub fn need(&self) -> (r: Need)
        requires
            self.wf(),
        ensures
            r == self@.need(),
    {
        if self.done {
            return Need::End;
        }
        if self.chunked {
            return match self.chunk {
                Some(n) => Need::Exactly(n + 2),
                None => Need::Line,
            };
        }
        match self.remaining {
            Some(n) => if n == 0 {
                Need::End
            } else {
                Need::Exactly(n)
            },
            None => Need::UpTo(4096),
        }
    }

    /// A chunk header arrived; an empty line means that the connection
    /// closed, and a size of nothing that the body ends. A chunk that no
    /// buffer could hold is taken for a bad one.
    pub fn header(&mut self, line: &str) -> (r: Result<(), Error>)
        requires
            old(self).wf(),
        ensures
            final(self).wf(),
            old(self)@.announced(line@, final(self)@, r),
    {
        if line.is_empty() {
            self.done = true;
            return Ok(());
        }
        let digits = trimmed(text_before(trimmed(line).as_str(), ';').as_str());
        let mut message = String::from_str("bad chunk size ");
        message.append(quote(line).as_str());
        match read_unsigned(digits.as_str(), 16, usize::MAX as u64) {
            Ok(n) => {
                if n == 0 {
                    self.done = true;
                    return Ok(());
                }
                if n as usize <= usize::MAX - 2 {
                    self.chunk = Some(n as usize);
                    return Ok(());
                }
                message.append(": number too large to fit in target type");
            },
            Err(why) => {
                message.append(": ");
                message.append(why.as_str());
            },
        }
        Err(Error::Http(message))
    }

    /// The bytes that were needed arrived.
    pub fn feed(&mut self, bytes: &[u8])
        requires
            old(self).wf(),
            match old(self)@.need() {
                Need::Exactly(n) => bytes@.len() == n,
                Need::UpTo(n) => bytes@.len() <= n,
                _ => false,
            },
        ensures
            final(self).wf(),
            final(self)@ == old(self)@.fed(bytes@),
    {
        let ghost before = self@;
        if self.chunked {
            let body = vstd::slice::slice_subrange(bytes, 0, bytes.len() - 2);
            self.buf.extend_from_slice(body);
            self.chunk = None;
            assert(body@ =~= bytes@.take(bytes@.len() - 2));
            assert(self@.buf =~= before.buf + body@);
        } else {
            self.buf.extend_from_slice(bytes);
            assert(self@.buf =~= before.buf + bytes@);
            match self.remaining {
                Some(_) => self.remaining = Some(0),
                None => {
                    if bytes.len() == 0 {
                        self.done = true;
                    }
                },
            }
        }
    }

    /// The next line that has come whole, without what white space ends it.
    pub fn next_line(&mut self) -> (r: Option<String>)
        requires
            old(self).wf(),
        ensures
            final(self).wf(),
            old(self)@.cut(final(self)@, r),
    {
        let at = index_of_byte(self.buf.as_slice(), 10);
        if at >= self.buf.len() {
            return None;
        }
        let ghost before = self@;
        let rest = self.buf.split_off(at + 1);
        let line = trimmed_end(text_lossy(self.buf.as_slice()).as_str());
        assert(self.buf@ =~= before.buf.take(at + 1));
        self.buf = rest;
        assert(self@.buf =~= before.buf.skip(at + 1));
        Some(line)
    }

    /// The bytes that have come.
    pub fn into_bytes(self) -> (r: Vec<u8>)
        ensures
            r@ == self@.buf,
    {
        self.buf
    }
}

/// A body framed by its length holds exactly those bytes, and then ends.
pub proof fn bodies_by_length_decode(bytes: Seq<u8>)
    requires
        0 < bytes.len() <= usize::MAX,
    ensures
        ({
            let start = BodyView {
                chunked: false,
                chunk: None,
                remaining: Some(bytes.len() as usize),
                buf: Seq::empty(),
                done: false,
            };
            &&& start.need() == Need::Exactly(bytes.len() as usize)
            &&& start.fed(bytes).buf == bytes
            &&& start.fed(bytes).need() == Need::End
        }),
{
    assert(Seq::empty() + bytes =~= bytes);
}

proof fn lemma_trim_numeral(digits: Seq<char>)
    requires
        digits.len() > 0,
        forall|i: int| 0 <= i < digits.len() ==> crate::text::digit_value(#[trigger] digits[i]) < 16,
    ensures
        trim(before(trim(digits + seq!['\r', '\n']), ';')) == digits,
{
    let line = digits + seq!['\r', '\n'];
    assert(crate::text::digit_value(digits[0]) < 16);
    assert(crate::text::digit_value(digits[digits.len() - 1]) < 16);
    assert(line[0] == digits[0]);
    assert(crate::words::trim_start(line) == line);
    assert(line.drop_last() =~= digits.push('\r'));
    assert(digits.push('\r').drop_last() =~= digits);
    reveal_with_fuel(trim_end, 3);
    assert(trim(line) == digits);
    crate::words::lemma_first(digits, ';');
    assert(first(digits, ';') == digits.len()) by {
        if first(digits, ';') < digits.len() {
            assert(crate::text::digit_value(digits[first(digits, ';')]) < 16);
        }
    }
    assert(digits.take(digits.len() as int) =~= digits);
    assert(crate::words::trim_start(digits) == digits);
}

/// A chunk comes out as it went in: the header that announces its size, the
/// bytes and a line break add exactly the bytes.
pub proof fn chunks_decode(body: BodyView, bytes: Seq<u8>, ending: Seq<u8>)
    requires
        body.chunked,
        body.chunk is None,
        !body.done,
        0 < bytes.len() <= usize::MAX - 2,
        ending.len() == 2,
    ensures
        chunk_size(crate::text::numeral(bytes.len(), 16) + seq!['\r', '\n']) == Ok::<
            nat,
            Seq<char>,
        >(bytes.len()),
        ({
            let announced = BodyView { chunk: Some(bytes.len() as usize), ..body };
            &&& announced.need() == Need::Exactly((bytes.len() + 2) as usize)
            &&& announced.fed(bytes + ending) == (BodyView { buf: body.buf + bytes, ..body })
        }),
{
    let digits = crate::text::numeral(bytes.len(), 16);
    crate::text::numerals_read_back(bytes.len(), 16);
    crate::text::lemma_numeral(bytes.len(), 16);
    assert(crate::text::is_numeral(digits, 16));
    lemma_trim_numeral(digits);
    assert((bytes + ending).take(bytes.len() as int) =~= bytes);
}

/// The host of an origin stands between `http://` and the next slash, whatever
/// follows that; it is given port 80 where it names none, and kept as it is where
/// it does.
pub proof fn origins_name_their_host(host: Seq<char>, path: Seq<char>)
    requires
        !host.contains('/'),
    ensures
        host_of("http://"@ + host) == Some(host),
        host_of("http://"@ + host.push('/') + path) == Some(host),
        host.contains(':') ==> with_port(host) == host,
        !host.contains(':') ==> with_port(host) == host + ":80"@,
{
    let scheme = "http://"@;
    let bare = scheme + host;
    let full = scheme + host.push('/') + path;
    assert(bare.take(scheme.len() as int) =~= scheme);
    assert(bare.skip(scheme.len() as int) =~= host);
    assert(full.take(scheme.len() as int) =~= scheme);
    assert(full.skip(scheme.len() as int) =~= host.push('/') + path);
    crate::words::text_is_parted_at_the_first(host, '/', path);
    crate::words::lemma_first(host, ':');
    if host.contains(':') {
        let i = choose|i: int| 0 <= i < host.len() && host[i] == ':';
        assert(first(host, ':') <= i);
    } else if first(host, ':') < host.len() {
        assert(host.contains(host[first(host, ':')]));
    }
}

/// What is no origin has no host.
pub proof fn other_schemes_have_no_host(base: Seq<char>, i: int)
    requires
        0 <= i < 7,
        base.len() <= i || base[i] != "http://"@[i],
    ensures
        host_of(base) is None,
{
    reveal_strlit("http://");
    if starts_with(base, "http://"@) {
        assert(base.take(7)[i] == base[i]);
    }
}

/// Only a subscription holds a connection open; every other request is a call,
/// handed on as it is, and it is a grant or a cancellation that has to reach an
/// open stream by its session.
pub proof fn only_subscriptions_hold_a_connection(request: Request, r: Plan)
    requires
        planned(request, r),
    ensures
        r is Stream <==> request is Subscribe,
        r is Call ==> r->request == request,
        r is Call && r->needs_session <==> request is Credit || request is Cancel,
        r is Stream ==> r->Stream_id == request->Subscribe_id && r->query@ == query_of(
            request->Subscribe_id,
            request->Subscribe_log@,
            request->from,
            request->mode,
            request->Subscribe_credit,
        ),
{
}

/// A query says what stream is wanted: its fields follow each other in order,
/// each behind its name, and the two modes are told apart by name.
pub proof fn queries_say_what_is_wanted(id: Id, log: Seq<char>, from: u64, mode: Mode, credit: u32)
    ensures
        ({
            let name = escaped(vstd::utf8::encode_utf8(log));
            let front = "id="@ + decimal(id as nat) + "&log="@ + name + "&from="@ + decimal(
                from as nat,
            );
            let query = query_of(id, log, from, mode, credit);
            &&& mode == Mode::Records ==> query == front + "&mode=records&credit="@ + decimal(
                credit as nat,
            )
            &&& mode == Mode::Reducible ==> query == front + "&mode=reducible&credit="@ + decimal(
                credit as nat,
            )
        }),
{
    reveal_strlit("&mode=");
    reveal_strlit("&credit=");
    reveal_strlit("records");
    reveal_strlit("reducible");
    reveal_strlit("&mode=records&credit=");
    reveal_strlit("&mode=reducible&credit=");
    assert("&mode="@ + "records"@ + "&credit="@ =~= "&mode=records&credit="@);
    assert("&mode="@ + "reducible"@ + "&credit="@ =~= "&mode=reducible&credit="@);
    let name = escaped(vstd::utf8::encode_utf8(log));
    let front = "id="@ + decimal(id as nat) + "&log="@ + name + "&from="@ + decimal(from as nat);
    assert(query_of(id, log, from, mode, credit) =~= front + ("&mode="@ + mode_name(mode)
        + "&credit="@) + decimal(credit as nat));
}

/// A stream's session is the one its last `Welcome` announced; other frames, and
/// what other streams are told, leave it alone.
pub proof fn sessions_are_announced_by_welcomes(
    sessions: Map<u64, String>,
    id: Id,
    frame: Response,
    other: Id,
)
    requires
        other != id,
    ensures
        frame is Welcome && frame->session is Some ==> noted(sessions, id, frame).contains_key(id)
            && noted(sessions, id, frame)[id] == frame->session->0,
        !(frame is Welcome && frame->session is Some) ==> noted(sessions, id, frame) == sessions,
        noted(sessions, id, frame).contains_key(other) <==> sessions.contains_key(other),
        noted(sessions, id, frame)[other] == sessions[other],
{
}

/// Status 200 is the one that means success, of a stream and of a call; a call
/// then hands over its body where there is one.
pub proof fn two_hundred_is_success(
    status: u16,
    body: Vec<u8>,
    stream: Result<(), Error>,
    call: Result<Option<Vec<u8>>, Error>,
)
    requires
        admitted(status, stream),
        replied(status, body, call),
    ensures
        stream is Ok <==> status == 200,
        call is Ok <==> status == 200,
        call is Ok && body@.len() > 0 ==> call->Ok_0 == Some(body),
        call is Ok && body@.len() == 0 ==> call->Ok_0 is None,
{
}

/// A `data:` line of an event stream carries the text behind it, whatever white
/// space stands around that; any other line carries nothing.
pub proof fn events_carry_their_data(lead: Seq<char>, text: Seq<char>, tail: Seq<char>)
    requires
        forall|i: int| 0 <= i < lead.len() ==> crate::words::whitespace(#[trigger] lead[i]),
        forall|i: int| 0 <= i < tail.len() ==> crate::words::whitespace(#[trigger] tail[i]),
        text.len() > 0 ==> !crate::words::whitespace(text[0]) && !crate::words::whitespace(
            text.last(),
        ),
    ensures
        line_data("data:"@ + (lead + text + tail)) == Some(text),
        line_data("event: message"@) is None,
        line_data(":"@ + text) is None,
{
    let line = "data:"@ + (lead + text + tail);
    reveal_strlit("data:");
    reveal_strlit("event: message");
    reveal_strlit(":");
    assert(line.take(5) =~= "data:"@);
    assert(line.skip(5) =~= lead + text + tail);
    crate::words::trimming_takes_off_white_space(lead, text, tail);
    if starts_with("event: message"@, "data:"@) {
        assert("event: message"@.take(5)[0] == "data:"@[0]);
    }
    if starts_with(":"@ + text, "data:"@) {
        assert((":"@ + text).take(5)[0] == "data:"@[0]);
    }
}

proof fn lemma_header_line(name: Seq<char>, value: Seq<char>)
    requires
        !name.contains(':'),
        name.len() > 0 && !crate::words::whitespace(name[0]) && !crate::words::whitespace(
            name.last(),
        ),
        value.len() > 0 && !crate::words::whitespace(value[0]) && !crate::words::whitespace(
            value.last(),
        ),
    ensures
        ({
            let line = name + ": "@ + value + "\r\n"@;
            &&& trim_end(line).len() > 0
            &&& after(trim_end(line), ':') is Some
            &&& trim(after(trim_end(line), ':')->0) == value
            &&& trim(before(trim_end(line), ':')) == name
        }),
{
    reveal_strlit(": ");
    reveal_strlit("\r\n");
    let none = Seq::<char>::empty();
    let crlf = "\r\n"@;
    let space = seq![' '];
    let text = name + ": "@ + value;
    assert(forall|i: int| 0 <= i < crlf.len() ==> crate::words::whitespace(#[trigger] crlf[i]));
    assert(text.last() == value.last());
    crate::words::lemma_trim_end(text, crlf);
    assert(text =~= name.push(':') + (space + value));
    crate::words::text_is_parted_at_the_first(name, ':', space + value);
    crate::words::trimming_takes_off_white_space(space, value, none);
    assert(space + value + none =~= space + value);
    crate::words::trimming_takes_off_white_space(none, name, none);
    assert(none + name + none =~= name);
}

/// A header says how long the body is, whatever the case of its name; the blank
/// line ends the head.
pub proof fn heads_say_how_long_the_body_is(head: Head, name: Seq<char>, n: usize)
    requires
        lower(name) == "content-length"@,
    ensures
        with_line(head, name + ": "@ + decimal(n as nat) + "\r\n"@) == Some(
            Head { length: Some(n), ..head },
        ),
        with_line(head, "\r\n"@) is None,
{
    reveal_strlit("content-length");
    reveal_strlit("\r\n");
    lemma_named(name, "content-length"@);
    crate::text::lemma_numeral(n as nat, 10);
    crate::text::numerals_read_back(n as nat, 10);
    let digits = decimal(n as nat);
    assert(crate::text::digit_value(digits[0]) < 10);
    assert(crate::text::digit_value(digits[digits.len() - 1]) < 10);
    lemma_header_line(name, digits);
    let crlf = "\r\n"@;
    assert(forall|i: int| 0 <= i < crlf.len() ==> crate::words::whitespace(#[trigger] crlf[i]));
    crate::words::lemma_trim_end(Seq::empty(), crlf);
    assert(Seq::<char>::empty() + crlf =~= crlf);
}

proof fn lemma_named(name: Seq<char>, wanted: Seq<char>)
    requires
        lower(name) == wanted,
        wanted.len() > 0,
        forall|i: int|
            0 <= i < wanted.len() ==> ('a' <= #[trigger] wanted[i] && wanted[i] <= 'z') || wanted[i]
                == '-',
    ensures
        !name.contains(':'),
        name.len() > 0,
        !crate::words::whitespace(name[0]),
        !crate::words::whitespace(name.last()),
{
    assert(lower(name).len() == name.len());
    assert forall|i: int| 0 <= i < name.len() implies #[trigger] name[i] != ':'
        && !crate::words::whitespace(name[i]) by {
        assert(lower(name)[i] == wanted[i]);
        assert(lower(name)[i] == crate::words::lower_char(name[i]));
    }
}

/// A body is chunked where its transfer encoding says so, whatever the case of
/// the header's name and of its value; a header that says neither this nor a
/// length leaves what is known of the body alone.
pub proof fn heads_say_whether_the_body_is_chunked(
    head: Head,
    name: Seq<char>,
    value: Seq<char>,
    other: Seq<char>,
)
    requires
        lower(name) == "transfer-encoding"@,
        lower(value) == "chunked"@,
        !other.contains(':'),
        other.len() > 0 && !crate::words::whitespace(other[0]) && !crate::words::whitespace(
            other.last(),
        ),
        lower(other) != "transfer-encoding"@,
        lower(other) != "content-length"@,
    ensures
        with_line(head, name + ": "@ + value + "\r\n"@) == Some(Head { chunked: true, ..head }),
        with_line(head, other + ": "@ + value + "\r\n"@) == Some(head),
{
    assert(!name.contains(':') && name.len() > 0 && !crate::words::whitespace(name[0])
        && !crate::words::whitespace(name.last())) by {
        reveal_strlit("transfer-encoding");
        lemma_named(name, "transfer-encoding"@);
    }
    assert(value.len() > 0 && !crate::words::whitespace(value[0]) && !crate::words::whitespace(
        value.last(),
    )) by {
        reveal_strlit("chunked");
        lemma_named(value, "chunked"@);
    }
    lemma_header_line(name, value);
    lemma_header_line(other, value);
    assert("transfer-encoding"@ != "content-length"@) by {
        reveal_strlit("transfer-encoding");
        reveal_strlit("content-length");
        assert("transfer-encoding"@[0] != "content-length"@[0]);
    }
    assert(contains(lower(value), "chunked"@)) by {
        let whole = lower(value);
        assert(whole.subrange(0, 0int + "chunked"@.len()) =~= "chunked"@);
    }
}

/// A transfer encoding that does not speak of chunks has none.
pub proof fn other_encodings_have_no_chunks(head: Head, name: Seq<char>, value: Seq<char>)
    requires
        lower(name) == "transfer-encoding"@,
        value.len() > 0 && !crate::words::whitespace(value[0]) && !crate::words::whitespace(
            value.last(),
        ),
        !lower(value).contains('k'),
    ensures
        with_line(head, name + ": "@ + value + "\r\n"@) == Some(Head { chunked: false, ..head }),
{
    assert(!name.contains(':') && name.len() > 0 && !crate::words::whitespace(name[0])
        && !crate::words::whitespace(name.last())) by {
        reveal_strlit("transfer-encoding");
        lemma_named(name, "transfer-encoding"@);
    }
    lemma_header_line(name, value);
    assert("transfer-encoding"@ != "content-length"@) by {
        reveal_strlit("transfer-encoding");
        reveal_strlit("content-length");
        assert("transfer-encoding"@[0] != "content-length"@[0]);
    }
    let whole = lower(value);
    if contains(whole, "chunked"@) {
        reveal_strlit("chunked");
        let i = choose|i: int|
            0 <= i <= whole.len() - "chunked"@.len() && #[trigger] whole.subrange(
                i,
                i + "chunked"@.len(),
            ) == "chunked"@;
        assert(whole.subrange(i, i + "chunked"@.len())[4] == whole[i + 4]);
        assert(whole.contains(whole[i + 4]));
    }
}

/// A chunk header announces its size in hexadecimal, before any extension; the
/// size nothing, and the end of the connection, end the body.
pub proof fn chunks_are_announced(
    body: BodyView,
    n: nat,
    extension: Seq<char>,
    after: BodyView,
    r: Result<(), Error>,
    end: BodyView,
    s: Result<(), Error>,
)
    requires
        n <= usize::MAX - 2,
        extension.len() > 0 ==> !crate::words::whitespace(extension.last()),
        body.announced(crate::text::numeral(n, 16).push(';') + extension, after, r),
        body.announced(Seq::empty(), end, s),
    ensures
        r is Ok,
        n == 0 ==> after.need() == Need::End && after.buf == body.buf,
        n > 0 ==> after == (BodyView { chunk: Some(n as usize), ..body }),
        s is Ok && end.need() == Need::End && end.buf == body.buf,
{
    let digits = crate::text::numeral(n, 16);
    crate::text::lemma_numeral(n, 16);
    crate::text::numerals_read_back(n, 16);
    let line = digits.push(';') + extension;
    let none = Seq::<char>::empty();
    assert(crate::text::digit_value(digits[0]) < 16);
    assert(crate::text::digit_value(digits[digits.len() - 1]) < 16);
    assert(line[0] == digits[0]);
    assert(line.last() == if extension.len() > 0 {
        extension.last()
    } else {
        ';'
    });
    crate::words::trimming_takes_off_white_space(none, line, none);
    assert(none + line + none =~= line);
    assert(!digits.contains(';')) by {
        if digits.contains(';') {
            let i = choose|i: int| 0 <= i < digits.len() && digits[i] == ';';
            assert(crate::text::digit_value(digits[i]) < 16);
        }
    }
    crate::words::text_is_parted_at_the_first(digits, ';', extension);
    crate::words::trimming_takes_off_white_space(none, digits, none);
    assert(none + digits + none =~= digits);
}

/// A body with neither length nor chunks runs to the end of the connection: it
/// takes whatever comes, in order, until nothing does.
pub proof fn bodies_run_to_the_end(body: BodyView, a: Seq<u8>, b: Seq<u8>)
    requires
        !body.chunked,
        body.remaining is None,
        !body.done,
        a.len() > 0,
        b.len() > 0,
    ensures
        body.need() is UpTo,
        body.need()->UpTo_0 > 0,
        body.fed(a).fed(b) == body.fed(a + b),
        body.fed(a).buf == body.buf + a,
        body.fed(a).need() is UpTo,
        body.fed(a).fed(Seq::empty()).need() == Need::End,
        body.fed(a).fed(Seq::empty()).buf == body.buf + a,
{
    assert(body.buf + a + b =~= body.buf + (a + b));
    assert(body.buf + a + Seq::<u8>::empty() =~= body.buf + a);
}

/// Lines come off a body whole and in order: what stands before the first line
/// break comes out, what stands after it stays, and where there is none, nothing
/// happens.
pub proof fn lines_come_off_whole(
    body: BodyView,
    line: Seq<u8>,
    rest: Seq<u8>,
    after: BodyView,
    r: Option<String>,
)
    requires
        !line.contains(10),
        body.cut(after, r),
    ensures
        body.buf == line.push(10) + rest ==> r is Some && r->0@ == trim_end(lossy(line.push(10)))
            && after == (BodyView { buf: rest, ..body }),
        body.buf == line ==> r is None && after == body,
{
    crate::words::bytes_are_found_at_the_first(line, 10, rest);
    assert((line.push(10) + rest).take((line.len() + 1) as int) =~= line.push(10));
    assert((line.push(10) + rest).skip((line.len() + 1) as int) =~= rest);
}

} // verus!
