//! Length-prefixed framing.
//!
//! `[len: u32 be][body: len bytes]`. The length prefix is what makes this
//! cheap to read: one read for the header, one sized read for the body, no
//! scanning for delimiters and no ambiguity about newlines inside strings.

use super::buffer::{
    advance, be32, buffer_len, byte_at, content, freeze, held, lemma_be32, new_buffer, of_be32,
    put_slice, put_u32, reserve, split_to,
};
use crate::text::{decimal, decimal_text};
use bytes::{Bytes, BytesMut};
use vstd::prelude::*;

verus! {

/// Frames above this are refused without allocating. Generous for patches,
/// small enough that a hostile length prefix cannot exhaust memory.
pub const MAX_FRAME: u32 = 16 * 1024 * 1024;

pub const HEADER: usize = 4;

#[derive(Clone, Copy, Debug, PartialEq, Eq, Structural)]
pub enum Error {
    /// A frame of so many bytes is above the limit.
    TooLarge(u32),
}

impl Error {
    pub open spec fn text(self) -> Seq<char> {
        match self {
            Error::TooLarge(n) => "frame of "@ + decimal(n as nat)
                + " bytes exceeds the 16777216 byte limit"@,
        }
    }

    /// The failure, in words.
    pub fn message(&self) -> (r: String)
        ensures
            r@ == self.text(),
    {
        match self {
            Error::TooLarge(n) => {
                let mut out = String::from_str("frame of ");
                out.append(decimal_text(*n as u64).as_str());
                out.append(" bytes exceeds the 16777216 byte limit");
                out
            },
        }
    }
}

/// One frame on the wire.
pub open spec fn frame(body: Seq<u8>) -> Seq<u8> {
    be32(body.len() as u32) + body
}

/// What a buffer starts with.
pub enum Front {
    /// Not yet a whole frame.
    Partial,
    /// A prefix that announces too much.
    TooLarge(u32),
    /// A whole frame, of which this is the body.
    Whole(Seq<u8>),
}

pub open spec fn front(bytes: Seq<u8>) -> Front {
    if bytes.len() < HEADER {
        Front::Partial
    } else if of_be32(bytes) > MAX_FRAME {
        Front::TooLarge(of_be32(bytes) as u32)
    } else if bytes.len() < HEADER + of_be32(bytes) {
        Front::Partial
    } else {
        Front::Whole(bytes.subrange(HEADER as int, HEADER + of_be32(bytes)))
    }
}

/// Splits a byte stream into frame bodies and puts bodies into frames.
#[derive(Clone, Copy, Debug, Default, PartialEq, Eq)]
pub struct Codec {}

impl Codec {
    pub fn new() -> (r: Self)
        ensures
            r == (Codec {  }),
    {
        Codec {  }
    }

    /// Take one frame off the front, if it is all there.
    pub fn decode(&mut self, src: &mut BytesMut) -> (r: Result<Option<BytesMut>, Error>)
        ensures
            match front(held(*old(src))) {
                Front::Partial => r == Ok::<Option<BytesMut>, Error>(None) && held(*final(src))
                    == held(*old(src)),
                Front::TooLarge(len) => r == Err::<Option<BytesMut>, Error>(Error::TooLarge(len))
                    && held(*final(src)) == held(*old(src)),
                Front::Whole(body) => r is Ok && r->Ok_0 is Some && held(r->Ok_0->0) == body
                    && held(*old(src)) == frame(body) + held(*final(src)),
            },
    {
        let size = buffer_len(src);
        if size < HEADER {
            return Ok(None);
        }
        let len: u32 = byte_at(src, 0) as u32 * 0x100_0000 + byte_at(src, 1) as u32 * 0x1_0000
            + byte_at(src, 2) as u32 * 0x100 + byte_at(src, 3) as u32;
        assert(len == of_be32(held(*src)));
        if len > MAX_FRAME {
            return Err(Error::TooLarge(len));
        }
        let whole: usize = HEADER + len as usize;
        if size < whole {
            // Ask for the whole frame at once rather than growing byte by byte.
            reserve(src, whole - size);
            return Ok(None);
        }
        let ghost before = held(*src);
        advance(src, HEADER);
        let body = split_to(src, len as usize);
        proof {
            lemma_be32(len);
            assert(before.take(4) =~= be32(len));
            assert(held(body) =~= before.subrange(HEADER as int, HEADER + len));
            assert(before =~= frame(held(body)) + held(*src));
        }
        Ok(Some(body))
    }

    /// Append one frame.
    pub fn encode(&mut self, body: &[u8], dst: &mut BytesMut) -> (r: Result<(), Error>)
        requires
            held(*old(dst)).len() + MAX_FRAME + HEADER <= isize::MAX,
        ensures
            body@.len() <= MAX_FRAME ==> r is Ok && held(*final(dst)) == held(*old(dst)) + frame(
                body@,
            ),
            body@.len() > MAX_FRAME ==> held(*final(dst)) == held(*old(dst)) && r == Err::<
                (),
                Error,
            >(
                Error::TooLarge(
                    if body@.len() > u32::MAX {
                        u32::MAX
                    } else {
                        body@.len() as u32
                    },
                ),
            ),
    {
        if body.len() > u32::MAX as usize {
            return Err(Error::TooLarge(u32::MAX));
        }
        let len = body.len() as u32;
        if len > MAX_FRAME {
            return Err(Error::TooLarge(len));
        }
        let ghost before = held(*dst);
        reserve(dst, HEADER + body.len());
        put_u32(dst, len);
        put_slice(dst, body);
        assert(held(*dst) =~= before + frame(body@));
        Ok(())
    }
}

/// Encode one frame standalone.
pub fn encode(body: &[u8]) -> (r: Result<Bytes, Error>)
    ensures
        match r {
            Ok(bytes) => body@.len() <= MAX_FRAME && content(bytes) == frame(body@),
            Err(e) => body@.len() > MAX_FRAME && e == Error::TooLarge(
                if body@.len() > u32::MAX {
                    u32::MAX
                } else {
                    body@.len() as u32
                },
            ),
        },
{
    let mut buffer = new_buffer();
    let mut codec = Codec::new();
    match codec.encode(body, &mut buffer) {
        Ok(()) => {
            assert(held(buffer) =~= frame(body@));
            Ok(freeze(buffer))
        },
        Err(e) => Err(e),
    }
}

/// What is encoded is decoded: a frame at the front of any bytes comes off
/// whole, and leaves exactly the bytes after it.
pub proof fn frames_round_trip(body: Seq<u8>, rest: Seq<u8>)
    requires
        body.len() <= MAX_FRAME,
    ensures
        front(frame(body) + rest) == Front::Whole(body),
        (frame(body) + rest).skip(HEADER + body.len()) == rest,
{
    let bytes = frame(body) + rest;
    lemma_be32(body.len() as u32);
    assert(of_be32(bytes) == of_be32(be32(body.len() as u32)));
    assert(bytes.subrange(HEADER as int, HEADER + body.len()) =~= body);
    assert(bytes.skip(HEADER + body.len()) =~= rest);
}

/// A frame that is not all there waits, wherever it was cut.
pub proof fn partial_frames_wait(body: Seq<u8>, cut: int)
    requires
        body.len() <= MAX_FRAME,
        0 <= cut < HEADER + body.len(),
    ensures
        front(frame(body).take(cut)) == Front::Partial,
{
    lemma_be32(body.len() as u32);
    let bytes = frame(body).take(cut);
    if cut >= HEADER {
        assert(of_be32(bytes) == of_be32(be32(body.len() as u32)));
    }
}

/// A length above the limit is refused on the prefix alone.
pub proof fn oversized_lengths_are_refused(len: u32, rest: Seq<u8>)
    requires
        len > MAX_FRAME,
    ensures
        front(be32(len) + rest) == Front::TooLarge(len),
{
    lemma_be32(len);
    assert(of_be32(be32(len) + rest) == of_be32(be32(len)));
}

/// The length of a frame goes first, its most significant byte before the others,
/// and the body follows as it is.
pub proof fn lengths_go_first(body: Seq<u8>)
    requires
        body.len() <= MAX_FRAME,
    ensures
        frame(body).len() == body.len() + 4,
        frame(body)[0] * 0x100_0000 + frame(body)[1] * 0x1_0000 + frame(body)[2] * 0x100
            + frame(body)[3] == body.len(),
        frame(body).skip(4) == body,
{
    lemma_be32(body.len() as u32);
    assert(frame(body).skip(4) =~= body);
}

/// Frames come off in the order they went on: of two, the first is whole first,
/// and the second is at the front of what it leaves.
pub proof fn frames_keep_their_order(first: Seq<u8>, second: Seq<u8>, rest: Seq<u8>)
    requires
        first.len() <= MAX_FRAME,
        second.len() <= MAX_FRAME,
    ensures
        front(frame(first) + frame(second) + rest) == Front::Whole(first),
        front((frame(first) + frame(second) + rest).skip(HEADER + first.len())) == Front::Whole(
            second,
        ),
{
    assert(frame(first) + frame(second) + rest =~= frame(first) + (frame(second) + rest));
    frames_round_trip(first, frame(second) + rest);
    frames_round_trip(second, rest);
}

/// The limit is sixteen mebibytes: a prefix that announces more is refused, and
/// one that announces as much or less waits for its body.
pub proof fn the_limit_is_sixteen_mebibytes(bytes: Seq<u8>)
    requires
        bytes.len() >= 4,
    ensures
        ({
            let len = bytes[0] * 0x100_0000 + bytes[1] * 0x1_0000 + bytes[2] * 0x100 + bytes[3];
            &&& len > 16 * 1024 * 1024 <==> front(bytes) is TooLarge
            &&& len <= 16 * 1024 * 1024 && bytes.len() < 4 + len ==> front(bytes) is Partial
            &&& len <= 16 * 1024 * 1024 && bytes.len() >= 4 + len ==> front(bytes) == Front::Whole(
                bytes.subrange(4, 4 + len),
            )
        }),
{
}

} // verus!
