//! HTTP, read and written by hand: every line, chunk and header that a load
//! run exchanges is checked rather than left to a library.

use super::error::{error, join, Error};
use super::wire::{validate_welcome, welcomes, Endpoint};
use crate::client::http::{query_of, stream_query, Sessions};
use crate::proto::codec::MAX_FRAME;
use crate::proto::http::{SESSION_HEADER, STREAM};
use crate::proto::show::shown;
use crate::proto::{Id, Request, Response};
use crate::text::{chars_of, decimal, decimal_text, number_in, read_unsigned, same};
use crate::words::{
    after, before, escape, escaped, first_byte, index_of_byte, lower, lowered, second_word,
    text_after, text_before, text_exact, trim, trimmed, utf8_fault, word,
};
use vstd::prelude::*;
use vstd::utf8::{decode_utf8, valid_utf8};

verus! {

/// The longest line that is read.
pub const LINE_LIMIT: usize = 8192;

/// The longest head, and the longest trailer.
pub const HEAD_LIMIT: usize = 65536;

/// The most bytes read of a body at once.
pub const PIECE: usize = 8192;

/// Percent-encode everything that is not plainly safe in a query value.
pub fn query(value: &str) -> (r: String)
    ensures
        r@ == escaped(vstd::utf8::encode_utf8(value@)),
{
    escape(value)
}

// ---------------------------------------------------------------------
// Lines.

/// How many of the bytes at hand belong to the line: those up to and with a
/// line feed, or all of them.
pub open spec fn of_line(available: Seq<u8>) -> int {
    if first_byte(available, 10) < available.len() {
        first_byte(available, 10) + 1
    } else {
        available.len() as int
    }
}

/// What is at hand makes the line `before` into `after`, or is refused.
pub open spec fn gathered(
    before: Seq<u8>,
    after: Seq<u8>,
    available: Seq<u8>,
    limit: usize,
    r: Result<(usize, bool), Error>,
) -> bool {
    match r {
        Ok((n, done)) => available.len() > 0 && n == of_line(available) && before.len() + n <= limit
            && done == (first_byte(available, 10) < available.len()) && after == before
            + available.take(n as int),
        Err(e) => after == before && if available.len() == 0 {
            e.message@ == "EOF inside HTTP line"@
        } else {
            before.len() + of_line(available) > limit && e.message@ == "HTTP line exceeds "@
                + decimal(limit as nat) + " bytes"@
        },
    }
}

/// Add what is at hand to a line. Says how many bytes were used, and whether
/// the line is whole.
pub fn gather(line: &mut Vec<u8>, available: &[u8], limit: usize) -> (r: Result<
    (usize, bool),
    Error,
>)
    ensures
        gathered(old(line)@, final(line)@, available@, limit, r),
{
    if available.len() == 0 {
        return Err(error(String::from_str("EOF inside HTTP line")));
    }
    let at = index_of_byte(available, 10);
    let done = at < available.len();
    let n = if done {
        at + 1
    } else {
        at
    };
    assert(n == of_line(available@)) by {
        lemma_first_byte(available@, 10);
    }
    if n > limit || line.len() > limit - n {
        return Err(
            error(join("HTTP line exceeds ", decimal_text(limit as u64).as_str(), " bytes")),
        );
    }
    let ghost before_ = line@;
    let mut i: usize = 0;
    while i < n
        invariant
            i <= n <= available@.len(),
            line@ == before_ + available@.take(i as int),
        decreases n - i,
    {
        line.push(available[i]);
        i += 1;
        assert(line@ =~= before_ + available@.take(i as int));
    }
    Ok((n, done))
}

proof fn lemma_first_byte(s: Seq<u8>, b: u8)
    ensures
        0 <= first_byte(s, b) <= s.len(),
        first_byte(s, b) < s.len() ==> s[first_byte(s, b)] == b,
        forall|i: int| 0 <= i < first_byte(s, b) ==> s[i] != b,
    decreases s.len(),
{
    if s.len() > 0 && s[0] != b {
        lemma_first_byte(s.drop_first(), b);
        let k = first_byte(s.drop_first(), b);
        if k < s.drop_first().len() {
            assert(s.drop_first()[k] == s[k + 1]);
        }
        assert forall|i: int| 0 <= i < k + 1 implies s[i] != b by {
            if i > 0 {
                assert(s.drop_first()[i - 1] == s[i]);
            }
        }
    }
}

/// The empty line.
pub open spec fn blank(line: Seq<u8>) -> bool {
    line == seq![13u8, 10u8]
}

fn is_blank(line: &[u8]) -> (r: bool)
    ensures
        r == blank(line@),
{
    let r = line.len() == 2 && line[0] == 13 && line[1] == 10;
    if r {
        assert(line@ =~= seq![13u8, 10u8]);
    }
    r
}

// ---------------------------------------------------------------------
// Requests.

/// Whether a session can stand in a header.
pub open spec fn graphic(s: Seq<char>) -> bool {
    forall|i: int| 0 <= i < s.len() ==> '!' <= (#[trigger] s[i]) && s[i] <= '~'
}

pub open spec fn head_of(
    endpoint: Endpoint,
    address: Seq<char>,
    method: Seq<char>,
    path: Seq<char>,
    session: Option<Seq<char>>,
    length: nat,
) -> Seq<char> {
    method + " "@ + path + " HTTP/1.1\r\nHost: "@ + address + "\r\nAuthorization: Bearer "@
        + endpoint.token@ + "\r\nContent-Type: application/json\r\nContent-Length: "@ + decimal(
        length,
    ) + "\r\nConnection: keep-alive\r\n"@ + (match session {
        Some(s) => SESSION_HEADER@ + ": "@ + s + "\r\n"@,
        None => Seq::empty(),
    }) + "\r\n"@
}

/// The head of a request whose body has `length` bytes.
pub fn request_head(
    endpoint: &Endpoint,
    method: &str,
    path: &str,
    session: Option<&str>,
    length: usize,
) -> (r: Result<String, Error>)
    ensures
        match r {
            Ok(head) => endpoint.http matches Some(address) && match session {
                Some(s) => graphic(s@) && head@ == head_of(
                    *endpoint,
                    address@,
                    method@,
                    path@,
                    Some(s@),
                    length as nat,
                ),
                None => head@ == head_of(
                    *endpoint,
                    address@,
                    method@,
                    path@,
                    None,
                    length as nat,
                ),
            },
            Err(e) => if endpoint.http is None {
                e.message@ == "HTTP endpoint missing address"@
            } else {
                session matches Some(s) && !graphic(s@) && e.message@
                    == "invalid HTTP session header"@
            },
        },
{
    let address = match &endpoint.http {
        Some(address) => address,
        None => return Err(error(String::from_str("HTTP endpoint missing address"))),
    };
    let mut head = String::from_str(method);
    head.append(" ");
    head.append(path);
    head.append(" HTTP/1.1\r\nHost: ");
    head.append(address.as_str());
    head.append("\r\nAuthorization: Bearer ");
    head.append(endpoint.token.as_str());
    head.append("\r\nContent-Type: application/json\r\nContent-Length: ");
    head.append(decimal_text(length as u64).as_str());
    head.append("\r\nConnection: keep-alive\r\n");
    let ghost so_far = head@;
    match session {
        Some(name) => {
            let chars = chars_of(name);
            let mut i: usize = 0;
            while i < chars.len()
                invariant
                    i <= chars@.len(),
                    chars@ == name@,
                    session == Some(name),
                    endpoint.http is Some,
                    forall|j: int|
                        0 <= j < i ==> '!' <= (#[trigger] chars@[j]) && chars@[j] <= '~',
                decreases chars@.len() - i,
            {
                if !('!' <= chars[i] && chars[i] <= '~') {
                    assert(!graphic(name@));
                    return Err(error(String::from_str("invalid HTTP session header")));
                }
                i += 1;
            }
            let mut line = String::from_str(SESSION_HEADER);
            line.append(": ");
            line.append(name);
            line.append("\r\n");
            head.append(line.as_str());
        },
        None => {
            assert(head@ =~= so_far + Seq::empty());
        },
    }
    head.append("\r\n");
    Ok(head)
}

// ---------------------------------------------------------------------
// Replies.

/// The status that a first line says, or why it says none.
pub open spec fn status_of(line: Seq<u8>) -> Result<nat, Seq<char>> {
    if valid_utf8(line) {
        number_in(
            match word(decode_utf8(line), 1) {
                Some(said) => said,
                None => Seq::empty(),
            },
            10,
            u16::MAX as nat,
        )
    } else {
        Err(utf8_fault(line))
    }
}

pub open spec fn was_accepted(
    line: Seq<u8>,
    method: Seq<char>,
    path: Seq<char>,
    r: Result<(), Error>,
) -> bool {
    match status_of(line) {
        Ok(status) => if 200 <= status < 300 {
            r is Ok
        } else {
            r is Err && r->Err_0.message@ == "HTTP "@ + method + " "@ + path + " returned status "@
                + decimal(status)
        },
        Err(why) => r is Err && r->Err_0.message@ == why,
    }
}

/// Whether the first line of a reply says success.
pub fn accepted(line: &[u8], method: &str, path: &str) -> (r: Result<(), Error>)
    ensures
        was_accepted(line@, method@, path@, r),
{
    let status = match text_exact(line) {
        Ok(text) => {
            let said = match second_word(text.as_str()) {
                Some(said) => said,
                None => String::new(),
            };
            read_unsigned(said.as_str(), 10, u16::MAX as u64)
        },
        Err(why) => Err(why),
    };
    match status {
        Ok(status) => {
            if 200 <= status && status < 300 {
                return Ok(());
            }
            let mut message = join("HTTP ", method, " ");
            message.append(path);
            message.append(" returned status ");
            message.append(decimal_text(status).as_str());
            Err(error(message))
        },
        Err(why) => Err(error(why)),
    }
}

/// Where in a body a reply is.
#[derive(Clone, Copy, Debug, PartialEq, Eq, Structural)]
pub enum Phase {
    /// Among the headers, of which so many bytes were seen.
    Head(usize),
    Body,
    /// After the data of a chunk, before the two bytes that close it.
    Ending,
    /// After the last chunk, with so many bytes of trailers seen.
    Trailers(usize),
    Ended,
}

/// How the body of a reply is delimited, and how much of it is left.
#[derive(Clone, Copy, Debug, PartialEq, Eq, Structural)]
pub struct Reply {
    pub chunked: bool,
    pub chunk_left: usize,
    pub remaining: Option<usize>,
    pub phase: Phase,
}

/// What a reply needs next.
#[derive(Clone, Copy, Debug, PartialEq, Eq, Structural)]
pub enum Need {
    /// A line of the head.
    Header,
    /// The line that says how long a chunk is.
    Size,
    /// A line of the trailers.
    Trailer,
    /// Up to so many bytes of the body.
    Bytes(usize),
    /// Two bytes, which close a chunk.
    Ending,
    /// Nothing any more.
    Nothing,
}

/// What a header says of the body, if anything.
pub enum Said {
    Nothing,
    /// So many bytes.
    Length(nat),
    /// A length that is no number, and why not.
    BadLength(Seq<char>),
    Chunked,
    /// In a way that is not understood.
    Unsupported,
}

pub open spec fn said(line: Seq<char>) -> Said {
    let text = trim(line);
    match after(text, ':') {
        None => Said::Nothing,
        Some(value) => {
            let name = lower(before(text, ':'));
            if name == "content-length"@ {
                match number_in(trim(value), 10, usize::MAX as nat) {
                    Ok(n) => Said::Length(n),
                    Err(why) => Said::BadLength(why),
                }
            } else if name == "transfer-encoding"@ {
                if lower(trim(value)) == "chunked"@ {
                    Said::Chunked
                } else {
                    Said::Unsupported
                }
            } else {
                Said::Nothing
            }
        },
    }
}

/// The length of a chunk, as its line says, or why it says none.
pub open spec fn size_of(line: Seq<u8>) -> Result<nat, Seq<char>> {
    if valid_utf8(line) {
        number_in(before(trim(decode_utf8(line)), ';'), 16, usize::MAX as nat)
    } else {
        Err(utf8_fault(line))
    }
}

impl Reply {
    /// A reply whose first line said success.
    pub fn begin() -> (r: Self)
        ensures
            r == (Reply { chunked: false, chunk_left: 0, remaining: None, phase: Phase::Head(0) }),
    {
        Reply { chunked: false, chunk_left: 0, remaining: None, phase: Phase::Head(0) }
    }

    /// A line of the head makes the reply `after`, or is refused.
    pub open spec fn headed(self, after: Reply, line: Seq<u8>, r: Result<(), Error>) -> bool {
        let seen = self.phase->Head_0 + line.len();
        if seen > HEAD_LIMIT {
            r is Err && r->Err_0.message@ == "HTTP headers exceed 64 KiB"@
        } else if blank(line) {
            r is Ok && after == (Reply { phase: Phase::Body, ..self })
        } else if !valid_utf8(line) {
            r is Err && r->Err_0.message@ == utf8_fault(line)
        } else {
            let head = Phase::Head(seen as usize);
            match said(decode_utf8(line)) {
                Said::Nothing => r is Ok && after == (Reply { phase: head, ..self }),
                Said::Length(n) => r is Ok && after == (Reply {
                    remaining: Some(n as usize),
                    phase: head,
                    ..self
                }),
                Said::Chunked => r is Ok && after == (Reply { chunked: true, phase: head, ..self }),
                Said::BadLength(why) => r is Err && r->Err_0.message@ == why,
                Said::Unsupported => r is Err && r->Err_0.message@
                    == "unsupported HTTP transfer encoding"@,
            }
        }
    }

    /// Take a line of the head.
    pub fn header(&mut self, line: &[u8]) -> (r: Result<(), Error>)
        requires
            old(self).phase is Head,
        ensures
            r is Err ==> *final(self) == *old(self),
            old(self).headed(*final(self), line@, r),
    {
        let so_far = match self.phase {
            Phase::Head(n) => n,
            _ => 0,
        };
        if so_far > HEAD_LIMIT || line.len() > HEAD_LIMIT - so_far {
            return Err(error(String::from_str("HTTP headers exceed 64 KiB")));
        }
        let seen = so_far + line.len();
        if is_blank(line) {
            self.phase = Phase::Body;
            return Ok(());
        }
        let text = match text_exact(line) {
            Ok(text) => trimmed(text.as_str()),
            Err(why) => return Err(error(why)),
        };
        match text_after(text.as_str(), ':') {
            None => {},
            Some(value) => {
                let name = lowered(text_before(text.as_str(), ':').as_str());
                if same(name.as_str(), "content-length") {
                    match read_unsigned(trimmed(value.as_str()).as_str(), 10, usize::MAX as u64) {
                        Ok(n) => {
                            self.remaining = Some(n as usize);
                        },
                        Err(why) => {
                            return Err(error(why));
                        },
                    }
                } else if same(name.as_str(), "transfer-encoding") {
                    if !same(lowered(trimmed(value.as_str()).as_str()).as_str(), "chunked") {
                        return Err(
                            error(String::from_str("unsupported HTTP transfer encoding")),
                        );
                    }
                    self.chunked = true;
                }
            },
        }
        self.phase = Phase::Head(seen);
        Ok(())
    }

    pub open spec fn needs(self) -> Need {
        match self.phase {
            Phase::Head(_) => Need::Header,
            Phase::Ending => Need::Ending,
            Phase::Trailers(_) => Need::Trailer,
            Phase::Ended => Need::Nothing,
            Phase::Body => if self.chunked && self.chunk_left == 0 {
                Need::Size
            } else {
                let left = if self.chunked {
                    self.chunk_left
                } else {
                    match self.remaining {
                        Some(n) => n,
                        None => PIECE,
                    }
                };
                if left == 0 {
                    Need::Nothing
                } else if left > PIECE {
                    Need::Bytes(PIECE)
                } else {
                    Need::Bytes(left)
                }
            },
        }
    }

    pub fn need(&self) -> (r: Need)
        ensures
            r == self.needs(),
    {
        match self.phase {
            Phase::Head(_) => Need::Header,
            Phase::Ending => Need::Ending,
            Phase::Trailers(_) => Need::Trailer,
            Phase::Ended => Need::Nothing,
            Phase::Body => {
                if self.chunked && self.chunk_left == 0 {
                    return Need::Size;
                }
                let left = if self.chunked {
                    self.chunk_left
                } else {
                    match self.remaining {
                        Some(n) => n,
                        None => PIECE,
                    }
                };
                if left == 0 {
                    Need::Nothing
                } else if left > PIECE {
                    Need::Bytes(PIECE)
                } else {
                    Need::Bytes(left)
                }
            },
        }
    }

    /// The line that says how long a chunk is makes the reply `after`, or is
    /// refused.
    pub open spec fn sized(self, after: Reply, line: Seq<u8>, r: Result<(), Error>) -> bool {
        match size_of(line) {
            Err(why) => r is Err && r->Err_0.message@ == why && after == self,
            Ok(n) => r is Ok && after == if n == 0 {
                Reply { phase: Phase::Trailers(0), ..self }
            } else {
                Reply { chunk_left: n as usize, ..self }
            },
        }
    }

    /// Take the line that says how long a chunk is.
    pub fn size(&mut self, line: &[u8]) -> (r: Result<(), Error>)
        requires
            old(self).needs() is Size,
        ensures
            old(self).sized(*final(self), line@, r),
    {
        let length = match text_exact(line) {
            Ok(text) => read_unsigned(
                text_before(trimmed(text.as_str()).as_str(), ';').as_str(),
                16,
                usize::MAX as u64,
            ),
            Err(why) => Err(why),
        };
        match length {
            Err(why) => Err(error(why)),
            Ok(n) => {
                if n == 0 {
                    self.phase = Phase::Trailers(0);
                } else {
                    self.chunk_left = n as usize;
                }
                Ok(())
            },
        }
    }

    /// A line of the trailers makes the reply `after`, or is refused.
    pub open spec fn trailed(self, after: Reply, line: Seq<u8>, r: Result<(), Error>) -> bool {
        let seen = self.phase->Trailers_0 + line.len();
        if seen > HEAD_LIMIT {
            r is Err && r->Err_0.message@ == "HTTP trailers exceed 64 KiB"@ && after == self
        } else {
            r is Ok && after == (Reply {
                phase: if blank(line) {
                    Phase::Ended
                } else {
                    Phase::Trailers(seen as usize)
                },
                ..self
            })
        }
    }

    /// Take a line of the trailers.
    pub fn trailer(&mut self, line: &[u8]) -> (r: Result<(), Error>)
        requires
            old(self).phase is Trailers,
        ensures
            old(self).trailed(*final(self), line@, r),
    {
        let so_far = match self.phase {
            Phase::Trailers(n) => n,
            _ => 0,
        };
        if so_far > HEAD_LIMIT || line.len() > HEAD_LIMIT - so_far {
            return Err(error(String::from_str("HTTP trailers exceed 64 KiB")));
        }
        if is_blank(line) {
            self.phase = Phase::Ended;
        } else {
            self.phase = Phase::Trailers(so_far + line.len());
        }
        Ok(())
    }

    /// The reply after `n` bytes of the body were read, of which there was at
    /// least one.
    pub open spec fn read(self, n: usize) -> Reply {
        if self.chunked {
            Reply {
                chunk_left: (self.chunk_left - n) as usize,
                phase: if n == self.chunk_left {
                    Phase::Ending
                } else {
                    self.phase
                },
                ..self
            }
        } else {
            Reply {
                remaining: match self.remaining {
                    Some(left) => Some((left - n) as usize),
                    None => None,
                },
                ..self
            }
        }
    }

    /// So many bytes of the body make the reply `after`, or are too few.
    pub open spec fn advanced(self, after: Reply, n: usize, r: Result<(), Error>) -> bool {
        if n > 0 {
            r is Ok && after == self.read(n)
        } else if self.chunked || self.remaining is Some {
            r is Err && r->Err_0.message@ == "truncated HTTP body"@ && after == self
        } else {
            r is Ok && after == (Reply { phase: Phase::Ended, ..self })
        }
    }

    /// So many bytes were read of the body. None means that the peer closed.
    pub fn took(&mut self, n: usize) -> (r: Result<(), Error>)
        requires
            old(self).needs() matches Need::Bytes(most) && n <= most,
        ensures
            old(self).advanced(*final(self), n, r),
    {
        if n == 0 {
            if self.chunked || self.remaining.is_some() {
                return Err(error(String::from_str("truncated HTTP body")));
            }
            self.phase = Phase::Ended;
            return Ok(());
        }
        if self.chunked {
            self.chunk_left = self.chunk_left - n;
            if self.chunk_left == 0 {
                self.phase = Phase::Ending;
            }
        } else {
            match self.remaining {
                Some(left) => {
                    self.remaining = Some(left - n);
                },
                None => {},
            }
        }
        Ok(())
    }

    /// Two bytes after a chunk make the reply `after`, or do not close it.
    pub open spec fn closed_by(self, after: Reply, a: u8, b: u8, r: Result<(), Error>) -> bool {
        if a == 13 && b == 10 {
            r is Ok && after == (Reply { phase: Phase::Body, ..self })
        } else {
            r is Err && r->Err_0.message@ == "invalid HTTP chunk terminator"@ && after == self
        }
    }

    /// Take the two bytes that close a chunk.
    pub fn ending(&mut self, a: u8, b: u8) -> (r: Result<(), Error>)
        requires
            old(self).phase is Ending,
        ensures
            old(self).closed_by(*final(self), a, b, r),
    {
        if a != 13 || b != 10 {
            return Err(error(String::from_str("invalid HTTP chunk terminator")));
        }
        self.phase = Phase::Body;
        Ok(())
    }
}

/// The reply after reads of these sizes.
pub open spec fn after_reads(reply: Reply, reads: Seq<usize>) -> Reply
    decreases reads.len(),
{
    if reads.len() == 0 {
        reply
    } else {
        after_reads(reply, reads.drop_last()).read(reads.last())
    }
}

pub open spec fn total(reads: Seq<usize>) -> nat
    decreases reads.len(),
{
    if reads.len() == 0 {
        0
    } else {
        total(reads.drop_last()) + reads.last() as nat
    }
}

/// However the reads fall, a chunk closes after exactly the bytes that its
/// size announced, and not before.
pub proof fn chunks_close_where_they_end(reply: Reply, reads: Seq<usize>)
    requires
        reply.phase is Body,
        reply.chunked,
        reply.chunk_left > 0,
        total(reads) <= reply.chunk_left,
        forall|i: int| 0 <= i < reads.len() ==> (#[trigger] reads[i]) > 0,
    ensures
        after_reads(reply, reads).chunk_left == reply.chunk_left - total(reads),
        after_reads(reply, reads).phase is Ending <==> total(reads) == reply.chunk_left,
        after_reads(reply, reads).phase is Body <==> total(reads) < reply.chunk_left,
        after_reads(reply, reads).chunked,
    decreases reads.len(),
{
    if reads.len() > 0 {
        let less = reads.drop_last();
        assert(forall|i: int| 0 <= i < less.len() ==> less[i] == reads[i]);
        assert(reads.last() == reads[reads.len() - 1]);
        chunks_close_where_they_end(reply, less);
    }
}

/// A body of a known length has nothing left after exactly so many bytes.
pub proof fn lengths_run_out(reply: Reply, reads: Seq<usize>)
    requires
        reply.phase is Body,
        !reply.chunked,
        reply.remaining is Some,
        total(reads) <= reply.remaining->0,
    ensures
        after_reads(reply, reads) == (Reply {
            remaining: Some((reply.remaining->0 - total(reads)) as usize),
            ..reply
        }),
        after_reads(reply, reads).needs() is Nothing <==> total(reads) == reply.remaining->0,
    decreases reads.len(),
{
    if reads.len() > 0 {
        lengths_run_out(reply, reads.drop_last());
    }
}

/// Add a piece to the body of a reply, as long as a frame may be so long.
pub fn collect(body: &mut Vec<u8>, part: &[u8]) -> (r: Result<(), Error>)
    ensures
        if old(body)@.len() + part@.len() > MAX_FRAME {
            r is Err && r->Err_0.message@ == "HTTP response exceeds frame limit"@ && final(body)@
                == old(body)@
        } else {
            r is Ok && final(body)@ == old(body)@ + part@
        },
{
    if part.len() > MAX_FRAME as usize || body.len() > MAX_FRAME as usize - part.len() {
        return Err(error(String::from_str("HTTP response exceeds frame limit")));
    }
    append_bytes(body, part);
    Ok(())
}

fn append_bytes(out: &mut Vec<u8>, part: &[u8])
    ensures
        final(out)@ == old(out)@ + part@,
{
    let ghost so_far = out@;
    let mut i: usize = 0;
    assert(out@ =~= so_far + part@.take(0));
    while i < part.len()
        invariant
            i <= part@.len(),
            out@ == so_far + part@.take(i as int),
        decreases part@.len() - i,
    {
        out.push(part[i]);
        i += 1;
        assert(out@ =~= so_far + part@.take(i as int));
    }
    assert(part@.take(i as int) =~= part@);
}

// ---------------------------------------------------------------------
// Event streams.

pub open spec fn data_mark() -> Seq<u8> {
    seq![0x64u8, 0x61u8, 0x74u8, 0x61u8, 0x3au8]
}

/// The payload of a line, line feed and all, where it carries one.
pub open spec fn payload_of(line: Seq<u8>) -> Option<Seq<u8>> {
    if line.len() >= 5 && line.take(5) == data_mark() {
        Some(line.skip(5))
    } else {
        None
    }
}

/// The first line of a stream, line feed and all.
pub open spec fn first_line(bytes: Seq<u8>) -> Seq<u8> {
    bytes.take(first_byte(bytes, 10) + 1)
}

pub open spec fn after_line(bytes: Seq<u8>) -> Seq<u8> {
    bytes.skip(first_byte(bytes, 10) + 1)
}

/// The payloads of the whole lines of a stream, in order.
pub open spec fn payloads(bytes: Seq<u8>) -> Seq<Seq<u8>>
    decreases bytes.len(),
{
    if 0 <= first_byte(bytes, 10) < bytes.len() {
        let rest = payloads(after_line(bytes));
        match payload_of(first_line(bytes)) {
            Some(data) => seq![data] + rest,
            None => rest,
        }
    } else {
        Seq::empty()
    }
}

/// What follows the last whole line of a stream.
pub open spec fn unfinished(bytes: Seq<u8>) -> Seq<u8>
    decreases bytes.len(),
{
    if 0 <= first_byte(bytes, 10) < bytes.len() {
        unfinished(after_line(bytes))
    } else {
        bytes
    }
}

/// An event stream as it arrives.
pub struct Events {
    pending: Vec<u8>,
}

impl Events {
    pub closed spec fn view(&self) -> Seq<u8> {
        self.pending@
    }

    pub fn new() -> (r: Self)
        ensures
            r@ == Seq::<u8>::empty(),
    {
        Events { pending: Vec::new() }
    }

    /// The payload of the next event that is here in whole. Comments and
    /// whatever else is no payload are passed over.
    pub fn next(&mut self) -> (r: Option<Vec<u8>>)
        ensures
            match r {
                Some(data) => payloads(old(self)@) == seq![data@] + payloads(final(self)@)
                    && unfinished(final(self)@) == unfinished(old(self)@),
                None => payloads(old(self)@).len() == 0 && final(self)@ == unfinished(old(self)@),
            },
    {
        let ghost start = self@;
        loop
            invariant
                payloads(self@) == payloads(start),
                unfinished(self@) == unfinished(start),
                start == old(self)@,
            decreases self@.len(),
        {
            let at = index_of_byte(self.pending.as_slice(), 10);
            proof {
                lemma_first_byte(self@, 10);
            }
            if at >= self.pending.len() {
                return None;
            }
            let ghost whole = self@;
            let rest = self.pending.split_off(at + 1);
            let mut line: Vec<u8> = Vec::new();
            std::mem::swap(&mut line, &mut self.pending);
            self.pending = rest;
            assert(line@ =~= first_line(whole));
            assert(self@ =~= after_line(whole));
            if line.len() >= 5 && line[0] == 0x64 && line[1] == 0x61 && line[2] == 0x74 && line[3]
                == 0x61 && line[4] == 0x3a {
                let ghost full = line@;
                let data = line.split_off(5);
                assert(full.take(5) =~= data_mark());
                assert(data@ =~= full.skip(5));
                return Some(data);
            }
            proof {
                if line@.len() >= 5 && line@.take(5) == data_mark() {
                    assert(line@.take(5)[0] == line@[0]);
                    assert(line@.take(5)[1] == line@[1]);
                    assert(line@.take(5)[2] == line@[2]);
                    assert(line@.take(5)[3] == line@[3]);
                    assert(line@.take(5)[4] == line@[4]);
                }
            }
        }
    }

    /// Take a piece of the stream. An empty one means that it ended.
    pub fn feed(&mut self, part: &[u8]) -> (r: Result<(), Error>)
        ensures
            if part@.len() == 0 {
                r is Err && r->Err_0.message@ == "SSE stream ended before Cancel"@
                    && final(self)@ == old(self)@
            } else if old(self)@.len() + part@.len() > MAX_FRAME + 8192 {
                r is Err && r->Err_0.message@ == "SSE line exceeds frame limit"@ && final(self)@
                    == old(self)@
            } else {
                r is Ok && final(self)@ == old(self)@ + part@
            },
    {
        if part.len() == 0 {
            return Err(error(String::from_str("SSE stream ended before Cancel")));
        }
        let limit = MAX_FRAME as usize + 8192;
        if part.len() > limit || self.pending.len() > limit - part.len() {
            return Err(error(String::from_str("SSE line exceeds frame limit")));
        }
        append_bytes(&mut self.pending, part);
        Ok(())
    }
}

/// Events survive the boundaries of the pieces they arrive in: what a stream
/// carries is the same, however it is cut in two.
pub proof fn events_survive_boundaries(a: Seq<u8>, b: Seq<u8>)
    ensures
        payloads(a + b) == payloads(a) + payloads(unfinished(a) + b),
        unfinished(a + b) == unfinished(unfinished(a) + b),
    decreases a.len(),
{
    lemma_first_byte(a, 10);
    if first_byte(a, 10) < a.len() {
        lemma_first_byte(a + b, 10);
        let k = first_byte(a, 10);
        let m = first_byte(a + b, 10);
        assert((a + b)[k] == a[k]);
        assert(m <= k);
        if m < k {
            assert((a + b)[m] == a[m]);
        }
        assert(first_line(a + b) =~= first_line(a));
        assert(after_line(a + b) =~= after_line(a) + b);
        events_survive_boundaries(after_line(a), b);
        match payload_of(first_line(a)) {
            Some(data) => {
                assert(seq![data] + (payloads(after_line(a)) + payloads(unfinished(a) + b)) =~= (
                seq![data] + payloads(after_line(a))) + payloads(unfinished(a) + b));
            },
            None => {},
        }
    } else {
        assert(payloads(a) =~= Seq::empty());
        assert(Seq::<Seq<u8>>::empty() + payloads(a + b) =~= payloads(a + b));
    }
}

// ---------------------------------------------------------------------
// Which requests go where.

/// Where a request goes.
pub enum Route {
    /// To a stream of its own, at this path.
    Open { id: Id, path: String },
    /// To the connection for calls, with the session of its stream. `ends`
    /// says that the stream it names is to be dropped: its end is expected
    /// once the call reaches the server, whose reply stands for it.
    Call { session: Option<String>, ends: bool },
}

/// Where a request goes by the sessions `before`, which are `after` then.
pub open spec fn routed(
    before: Map<u64, String>,
    after: Map<u64, String>,
    request: Request,
    r: Route,
) -> bool {
    match request {
        Request::Subscribe { id, log, from, mode, credit } => after == before && r is Open && r->id
            == id && r->path@ == STREAM@ + "?"@ + query_of(id, log@, from, mode, credit),
        Request::Cancel { id } => after == before.remove(id) && r == if before.contains_key(id) {
            (Route::Call { session: Some(before[id]), ends: true })
        } else {
            Route::Call { session: None, ends: false }
        },
        other => after == before && r == if before.contains_key(other.id()) {
            (Route::Call { session: Some(before[other.id()]), ends: false })
        } else {
            Route::Call { session: None, ends: false }
        },
    }
}

pub fn route(sessions: &mut Sessions, request: &Request) -> (r: Route)
    ensures
        routed(old(sessions)@, final(sessions)@, *request, r),
{
    match request {
        Request::Subscribe { id, log, from, mode, credit } => {
            let mut path = String::from_str(STREAM);
            path.append("?");
            path.append(stream_query(*id, log.as_str(), *from, *mode, *credit).as_str());
            Route::Open { id: *id, path }
        },
        Request::Cancel { id } => {
            let session = sessions.get(*id);
            sessions.remove(*id);
            let ends = session.is_some();
            Route::Call { session, ends }
        },
        other => Route::Call { session: sessions.get(other.id()), ends: false },
    }
}

/// A greeting on stream `id` makes the sessions `before` into `after`, or is
/// refused.
pub open spec fn greeted(
    before: Map<u64, String>,
    after: Map<u64, String>,
    id: Id,
    welcome: Response,
    r: Result<Response, Error>,
) -> bool {
    match r {
        Ok(reply) => welcomes(welcome) && welcome.id() == id && welcome->session is Some && reply
            == (Response::Accepted { id }) && after == before.insert(id, welcome->session->0),
        Err(e) => after == before && if !welcomes(welcome) {
            e.message@ == "invalid Hello response "@ + shown(welcome)
        } else if welcome.id() != id {
            e.message@ == "SSE Welcome returned the wrong stream id"@
        } else {
            welcome->session is None && e.message@ == "SSE Welcome omitted session"@
        },
    }
}

/// A stream was greeted. Its session is kept, and its opening is reported as
/// the acknowledgement that a socket would have sent.
pub fn opened(sessions: &mut Sessions, id: Id, welcome: Response) -> (r: Result<Response, Error>)
    ensures
        greeted(old(sessions)@, final(sessions)@, id, welcome, r),
{
    match validate_welcome(&welcome) {
        Ok(()) => {},
        Err(e) => return Err(e),
    }
    if welcome.id() != id {
        return Err(error(String::from_str("SSE Welcome returned the wrong stream id")));
    }
    match welcome {
        Response::Welcome { session: Some(session), .. } => {
            sessions.insert(id, session);
            Ok(Response::Accepted { id })
        },
        _ => Err(error(String::from_str("SSE Welcome omitted session"))),
    }
}

/// Whether a stream is over after this.
pub fn stream_over(response: &Result<Response, Error>) -> (r: bool)
    ensures
        r == match *response {
            Ok(frame) => frame.is_final(),
            Err(_) => true,
        },
{
    match response {
        Ok(frame) => frame.is_final(),
        Err(_) => true,
    }
}

// ---------------------------------------------------------------------
// What lines, heads and streams come to.

/// A line is gathered up to its line feed, however it arrives: what is at hand up
/// to there is added, and nothing of what follows; without one, all of it is, and
/// the line goes on. A line that would be too long is refused, and so is the end of
/// the connection in the middle of one.
pub proof fn lines_are_gathered_up_to_the_line_feed(
    before: Seq<u8>,
    after: Seq<u8>,
    part: Seq<u8>,
    rest: Seq<u8>,
    limit: usize,
    r: Result<(usize, bool), Error>,
)
    requires
        !part.contains(10),
    ensures
        gathered(before, after, part.push(10) + rest, limit, r) ==> {
            &&& r is Ok <==> before.len() + part.len() + 1 <= limit
            &&& r is Ok ==> r->Ok_0.0 == part.len() + 1 && r->Ok_0.1 && after == before
                + part.push(10)
        },
        part.len() > 0 && gathered(before, after, part, limit, r) ==> {
            &&& r is Ok <==> before.len() + part.len() <= limit
            &&& r is Ok ==> r->Ok_0.0 == part.len() && !r->Ok_0.1 && after == before + part
        },
        gathered(before, after, Seq::empty(), limit, r) ==> r is Err && after == before,
{
    crate::words::bytes_are_found_at_the_first(part, 10, rest);
    assert((part.push(10) + rest).take((part.len() + 1) as int) =~= part.push(10));
    assert(part.take(part.len() as int) =~= part);
}

/// The status of a reply is the second word of its first line, and means success
/// from 200 to 299.
pub proof fn statuses_are_the_second_word(
    protocol: Seq<char>,
    status: nat,
    reason: Seq<char>,
    method: Seq<char>,
    path: Seq<char>,
    r: Result<(), Error>,
)
    requires
        protocol.len() > 0,
        forall|i: int|
            0 <= i < protocol.len() ==> !crate::words::whitespace(#[trigger] protocol[i]),
        status <= u16::MAX,
        reason.len() > 0 ==> crate::words::whitespace(reason[0]),
        was_accepted(
            vstd::utf8::encode_utf8(protocol + (seq![' '] + (decimal(status) + reason))),
            method,
            path,
            r,
        ),
    ensures
        r is Ok <==> 200 <= status <= 299,
{
    let text = protocol + (seq![' '] + (decimal(status) + reason));
    let none = Seq::<char>::empty();
    crate::text::lemma_numeral(status, 10);
    crate::text::numerals_read_back(status, 10);
    let digits = decimal(status);
    assert forall|i: int| 0 <= i < digits.len() implies !crate::words::whitespace(
        #[trigger] digits[i],
    ) by {
        assert(crate::text::digit_value(digits[i]) < 10);
    }
    assert(none + text =~= text);
    crate::words::words_are_what_white_space_parts(none, protocol, seq![' '], digits, reason);
    vstd::utf8::encode_utf8_decode_utf8(text);
    vstd::utf8::encode_utf8_valid_utf8(text);
}

/// A header that gives a length says so many bytes, one that gives chunks says
/// chunks, whatever the case of names and of the word, and other headers say
/// nothing of the body.
pub proof fn headers_say_how_the_body_ends(name: Seq<char>, value: Seq<char>, n: usize)
    requires
        !name.contains(':'),
        name.len() > 0 && !crate::words::whitespace(name[0]) && !crate::words::whitespace(
            name.last(),
        ),
        value.len() > 0 && !crate::words::whitespace(value[0]) && !crate::words::whitespace(
            value.last(),
        ),
    ensures
        lower(name) == "content-length"@ && value == decimal(n as nat) ==> said(
            name + ": "@ + value + "\r\n"@,
        ) == Said::Length(n as nat),
        lower(name) == "transfer-encoding"@ && lower(value) == "chunked"@ ==> said(
            name + ": "@ + value + "\r\n"@,
        ) is Chunked,
        lower(name) == "transfer-encoding"@ && lower(value) != "chunked"@ ==> said(
            name + ": "@ + value + "\r\n"@,
        ) is Unsupported,
        lower(name) != "transfer-encoding"@ && lower(name) != "content-length"@ ==> said(
            name + ": "@ + value + "\r\n"@,
        ) is Nothing,
{
    let none = Seq::<char>::empty();
    let space = seq![' '];
    let line = name + ": "@ + value + "\r\n"@;
    let text = name.push(':') + (space + value);
    let crlf = seq!['\r', '\n'];
    reveal_strlit(": ");
    reveal_strlit("\r\n");
    assert(line =~= none + text + crlf);
    assert(text[0] == name[0] && text.last() == value.last());
    assert(forall|i: int| 0 <= i < crlf.len() ==> crate::words::whitespace(#[trigger] crlf[i]));
    crate::words::trimming_takes_off_white_space(none, text, crlf);
    crate::words::text_is_parted_at_the_first(name, ':', space + value);
    crate::words::trimming_takes_off_white_space(space, value, none);
    assert(space + value + none =~= space + value);
    crate::text::numerals_read_back(n as nat, 10);
    assert("transfer-encoding"@ != "content-length"@) by {
        reveal_strlit("transfer-encoding");
        reveal_strlit("content-length");
        assert("transfer-encoding"@[0] != "content-length"@[0]);
    }
}

/// The size of a chunk is hexadecimal, before any extension.
pub proof fn sizes_are_hexadecimal(n: nat, extension: Seq<char>)
    requires
        n <= usize::MAX,
    ensures
        size_of(
            vstd::utf8::encode_utf8(
                crate::text::numeral(n, 16) + (seq![';'] + extension).push('\n'),
            ),
        ) == Ok::<nat, Seq<char>>(n),
        size_of(vstd::utf8::encode_utf8(crate::text::numeral(n, 16) + seq!['\r', '\n'])) == Ok::<
            nat,
            Seq<char>,
        >(n),
{
    let digits = crate::text::numeral(n, 16);
    let none = Seq::<char>::empty();
    let crlf = seq!['\r', '\n'];
    crate::text::lemma_numeral(n, 16);
    crate::text::numerals_read_back(n, 16);
    assert(crate::text::digit_value(digits[0]) < 16);
    assert(crate::text::digit_value(digits[digits.len() - 1]) < 16);
    assert(!digits.contains(';')) by {
        if digits.contains(';') {
            let i = choose|i: int| 0 <= i < digits.len() && digits[i] == ';';
            assert(crate::text::digit_value(digits[i]) < 16);
        }
    }
    let plain = digits + crlf;
    assert(none + digits + crlf =~= plain);
    assert(forall|i: int| 0 <= i < crlf.len() ==> crate::words::whitespace(#[trigger] crlf[i]));
    crate::words::trimming_takes_off_white_space(none, digits, crlf);
    crate::words::text_is_parted_at_the_first(digits, ';', none);
    vstd::utf8::encode_utf8_decode_utf8(plain);
    vstd::utf8::encode_utf8_valid_utf8(plain);
    let full = digits + (seq![';'] + extension).push('\n');
    assert(full[0] == digits[0]);
    assert(crate::words::trim_start(full) == full);
    lemma_trim_keeps_front(digits, (seq![';'] + extension).push('\n'));
    let kept = crate::words::trim_end(full).skip((digits.len() + 1) as int);
    assert(crate::words::trim_end(full) =~= digits.push(';') + kept);
    crate::words::text_is_parted_at_the_first(digits, ';', kept);
    vstd::utf8::encode_utf8_decode_utf8(full);
    vstd::utf8::encode_utf8_valid_utf8(full);
}

proof fn lemma_trim_keeps_front(front: Seq<char>, back: Seq<char>)
    requires
        back.len() > 0,
        !crate::words::whitespace(back[0]),
    ensures
        crate::words::trim_end(front + back).len() > front.len(),
        crate::words::trim_end(front + back).take(front.len() as int) == front,
        crate::words::trim_end(front + back)[front.len() as int] == back[0],
    decreases back.len(),
{
    let all = front + back;
    if crate::words::whitespace(all.last()) {
        assert(back.len() > 1);
        assert(all.drop_last() =~= front + back.drop_last());
        lemma_trim_keeps_front(front, back.drop_last());
    } else {
        assert(all.take(front.len() as int) =~= front);
    }
}

/// A reply is read in this order: headers up to the blank line; of a chunked body a
/// size, the bytes, two more that close the chunk, and again a size; after the last
/// chunk trailers up to a blank line, and nothing any more.
pub proof fn replies_are_read_in_order(
    reply: Reply,
    after: Reply,
    line: Seq<u8>,
    a: u8,
    b: u8,
    r: Result<(), Error>,
)
    ensures
        reply.phase is Head ==> reply.needs() is Header,
        reply.phase is Head && blank(line) && reply.headed(after, line, r) && r is Ok
            ==> after.phase is Body && after.chunked == reply.chunked && after.remaining
            == reply.remaining,
        reply.phase is Body && reply.chunked ==> (reply.needs() is Size <==> reply.chunk_left == 0),
        reply.phase is Body && reply.sized(after, line, r) && r is Ok && size_of(line)->Ok_0 > 0
            ==> after.chunk_left == size_of(line)->Ok_0 as usize && after.phase is Body,
        reply.sized(after, line, r) && r is Ok && size_of(line)->Ok_0 == 0 ==> after.needs()
            is Trailer,
        reply.phase is Ending ==> reply.needs() is Ending,
        reply.phase is Ending && reply.closed_by(after, a, b, r) ==> (r is Ok <==> a == 13 && b
            == 10) && (r is Ok ==> after.phase is Body && after.chunk_left == reply.chunk_left),
        reply.phase is Trailers && blank(line) && reply.trailed(after, line, r) && r is Ok
            ==> after.needs() is Nothing,
        reply.phase is Trailers && !blank(line) && reply.trailed(after, line, r) && r is Ok
            ==> after.needs() is Trailer,
{
}

/// No more is asked for than a body has left, nor more than is read at once; a body
/// that breaks off is refused, unless nothing said where it ends.
pub proof fn bodies_are_read_to_their_end(
    reply: Reply,
    after: Reply,
    n: usize,
    r: Result<(), Error>,
)
    requires
        reply.phase is Body,
        reply.advanced(after, n, r),
    ensures
        reply.needs() is Bytes ==> 0 < reply.needs()->Bytes_0 <= 8192,
        reply.chunked && reply.needs() is Bytes ==> reply.needs()->Bytes_0 <= reply.chunk_left,
        !reply.chunked && reply.remaining is Some && reply.needs() is Bytes
            ==> reply.needs()->Bytes_0 <= reply.remaining->0,
        !reply.chunked && reply.remaining is None ==> reply.needs() is Bytes,
        n == 0 ==> (r is Err <==> reply.chunked || reply.remaining is Some),
        n == 0 && r is Ok ==> after.needs() is Nothing,
        n > 0 ==> r is Ok,
{
}

/// What an event stream carries is read line by line: a line that begins with
/// `data:` carries what follows, any other line nothing, and a line without its end
/// is left for later.
pub proof fn events_are_read_line_by_line(line: Seq<u8>, rest: Seq<u8>)
    requires
        !line.contains(10),
    ensures
        payloads((data_mark() + line).push(10) + rest) == seq![line.push(10)] + payloads(rest),
        !(line.len() >= 5 && line.take(5) == data_mark()) ==> payloads(line.push(10) + rest)
            == payloads(rest),
        payloads(line) == Seq::<Seq<u8>>::empty(),
        unfinished(line) == line,
        unfinished(line.push(10) + rest) == unfinished(rest),
{
    crate::words::bytes_are_found_at_the_first(line, 10, rest);
    let s = line.push(10) + rest;
    assert(first_line(s) =~= line.push(10));
    assert(after_line(s) =~= rest);
    if line.len() >= 5 {
        assert(line.push(10).take(5) =~= line.take(5));
    } else if line.push(10).len() >= 5 && line.push(10).take(5) == data_mark() {
        assert(line.push(10).take(5)[4] == 10);
    }
    let marked = data_mark() + line;
    assert(!marked.contains(10)) by {
        if marked.contains(10) {
            let i = choose|i: int| 0 <= i < marked.len() && marked[i] == 10;
            if i >= 5 {
                assert(line.contains(line[i - 5]));
            }
        }
    }
    crate::words::bytes_are_found_at_the_first(marked, 10, rest);
    let t = marked.push(10) + rest;
    assert(first_line(t) =~= marked.push(10));
    assert(after_line(t) =~= rest);
    assert(marked.push(10).take(5) =~= data_mark());
    assert(marked.push(10).skip(5) =~= line.push(10));
}

/// A subscription gets a stream of its own; everything else is a call, with the
/// session of the stream that it names where that has one. A cancellation drops its
/// session, and no other request changes any.
pub proof fn requests_go_with_their_session(
    before: Map<u64, String>,
    after: Map<u64, String>,
    request: Request,
    r: Route,
    other: u64,
)
    requires
        routed(before, after, request, r),
    ensures
        r is Open <==> request is Subscribe,
        r is Call ==> (r->session is Some <==> before.contains_key(request.id())) && (r->session
            is Some ==> r->session->0 == before[request.id()]),
        r is Call ==> (r->ends <==> request is Cancel && before.contains_key(request.id())),
        request is Cancel ==> !after.contains_key(request.id()),
        !(request is Cancel) ==> after == before,
        other != request.id() ==> (after.contains_key(other) <==> before.contains_key(other))
            && after[other] == before[other],
{
}

/// A stream is open exactly where its greeting is good, names the stream and gives
/// it a session; that session is kept, and those of other streams stay.
pub proof fn greetings_open_streams(
    before: Map<u64, String>,
    after: Map<u64, String>,
    id: Id,
    welcome: Response,
    r: Result<Response, Error>,
    other: u64,
)
    requires
        greeted(before, after, id, welcome, r),
        other != id,
    ensures
        r is Ok <==> welcomes(welcome) && welcome.id() == id && welcome->session is Some,
        r is Ok ==> after.contains_key(id) && after[id] == welcome->session->0 && r->Ok_0
            is Accepted && r->Ok_0->Accepted_id == id,
        r is Err ==> after == before,
        (after.contains_key(other) <==> before.contains_key(other)) && after[other]
            == before[other],
{
}

/// Heads and trailers may have 64 KiB each: a line that takes them beyond that is
/// refused, and any other line of trailers, or blank line of a head, is taken.
pub proof fn heads_and_trailers_are_bounded(
    reply: Reply,
    after: Reply,
    line: Seq<u8>,
    r: Result<(), Error>,
)
    ensures
        reply.phase is Head && reply.headed(after, line, r) && reply.phase->Head_0 + line.len() > 64
            * 1024 ==> r is Err,
        reply.phase is Head && reply.headed(after, line, r) && reply.phase->Head_0 + line.len()
            <= 64 * 1024 && blank(line) ==> r is Ok,
        reply.phase is Head && reply.headed(after, line, r) && r is Ok && !blank(line)
            ==> after.phase == Phase::Head((reply.phase->Head_0 + line.len()) as usize),
        reply.phase is Trailers && reply.trailed(after, line, r) ==> (r is Ok
            <==> reply.phase->Trailers_0 + line.len() <= 64 * 1024),
        reply.phase is Trailers && reply.trailed(after, line, r) && r is Ok && !blank(line)
            ==> after.phase == Phase::Trailers((reply.phase->Trailers_0 + line.len()) as usize),
{
}

} // verus!
