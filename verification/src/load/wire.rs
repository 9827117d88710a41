//! What goes over a connection of a load run, and what is counted of it.

use super::error::{error, join, pair, Error};
use crate::proto::codec::MAX_FRAME;
use crate::proto::show::{show, shown};
use crate::proto::{Request, Response, VERSION};
use crate::text::{decimal, decimal_text};
use vstd::prelude::*;

verus! {

/// Bytes and sockets, counted.
#[derive(Clone, Copy, Debug, PartialEq, Eq, Structural)]
pub struct Traffic {
    pub tx: u64,
    pub rx: u64,
    pub sockets: u64,
}

impl Default for Traffic {
    fn default() -> (r: Self)
        ensures
            r == (Traffic { tx: 0, rx: 0, sockets: 0 }),
    {
        Traffic { tx: 0, rx: 0, sockets: 0 }
    }
}

impl Traffic {
    /// What went out and what came in.
    pub fn snapshot(&self) -> (r: (u64, u64))
        ensures
            r == (self.tx, self.rx),
    {
        (self.tx, self.rx)
    }
}

/// A counter from one value to another, having come round at most once.
pub open spec fn counted(before: u64, after: u64) -> int {
    if after >= before {
        after - before
    } else {
        after - before + 0x1_0000_0000_0000_0000
    }
}

pub open spec fn is_moved(before: (u64, u64), after: (u64, u64), r: (u64, u64)) -> bool {
    r.0 == counted(before.0, after.0) && r.1 == counted(before.1, after.1)
}

/// How much moved between two snapshots.
pub fn moved(before: (u64, u64), after: (u64, u64)) -> (r: (u64, u64))
    ensures
        is_moved(before, after, r),
{
    (after.0.wrapping_sub(before.0), after.1.wrapping_sub(before.1))
}

/// Where a load run connects.
#[derive(Clone, Debug, PartialEq, Eq)]
pub struct Endpoint {
    pub socket: String,
    /// The address of the HTTP listener, where that is the transport.
    pub http: Option<String>,
    pub token: String,
}

/// The first frame on a connection.
pub fn hello() -> (r: Request)
    ensures
        r == (Request::Hello { id: 0, version: VERSION }),
{
    Request::Hello { id: 0, version: VERSION }
}

/// A greeting is good where it speaks this version and admits frames at all.
pub open spec fn welcomes(response: Response) -> bool {
    response is Welcome && response->Welcome_version == VERSION && response->max_frame > 0
}

pub fn validate_welcome(welcome: &Response) -> (r: Result<(), Error>)
    ensures
        r is Ok <==> welcomes(*welcome),
        r is Err ==> r->Err_0.message@ == "invalid Hello response "@ + shown(*welcome),
{
    match welcome {
        Response::Welcome { version, max_frame, .. } => {
            if *version == VERSION && *max_frame > 0 {
                return Ok(());
            }
        },
        _ => {},
    }
    Err(error(pair("invalid Hello response ", show(welcome).as_str())))
}

pub open spec fn measured(prefix: u32, r: Result<usize, Error>) -> bool {
    &&& prefix <= MAX_FRAME ==> r == Ok::<usize, Error>(prefix as usize)
    &&& prefix > MAX_FRAME ==> r is Err && r->Err_0.message@ == "peer frame "@ + decimal(
        prefix as nat,
    ) + " exceeds 16777216"@
}

/// How many bytes follow a length prefix, where a frame may be so long.
pub fn frame_length(prefix: u32) -> (r: Result<usize, Error>)
    ensures
        measured(prefix, r),
{
    if prefix > MAX_FRAME {
        return Err(
            error(join("peer frame ", decimal_text(prefix as u64).as_str(), " exceeds 16777216")),
        );
    }
    Ok(prefix as usize)
}

/// What moved is what takes the earlier count to the later one, round the end of
/// the counter where that came in between.
pub proof fn counts_lead_from_one_snapshot_to_the_next(
    before: (u64, u64),
    after: (u64, u64),
    r: (u64, u64),
)
    requires
        is_moved(before, after, r),
    ensures
        (before.0 + r.0) % 0x1_0000_0000_0000_0000 == after.0,
        (before.1 + r.1) % 0x1_0000_0000_0000_0000 == after.1,
        before == after ==> r == (0u64, 0u64),
        before.0 <= after.0 ==> counted(before.0, after.0) == after.0 - before.0,
        0 <= counted(before.0, after.0) <= u64::MAX,
{
}

/// Frames up to sixteen mebibytes are read at the length their prefix gives, and
/// longer ones are refused.
pub proof fn lengths_are_taken_up_to_the_limit(prefix: u32, r: Result<usize, Error>)
    requires
        measured(prefix, r),
    ensures
        r is Ok <==> prefix <= 16 * 1024 * 1024,
        r is Ok ==> r->Ok_0 == prefix,
{
}

/// A server that greets in another version, or takes no frames, or answers with
/// anything else than a greeting, is no good.
pub proof fn greetings_are_checked(response: Response)
    ensures
        !(response is Welcome) ==> !welcomes(response),
        response is Welcome ==> (welcomes(response) <==> response->Welcome_version == VERSION
            && response->max_frame != 0),
{
}

} // verus!
