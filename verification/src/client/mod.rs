//! The client: what one hub decides, over either transport.
//!
//! - A hub owns a pool of connections and picks the least loaded one per call.
//!   Many exchanges share a connection at once, matched by id.
//! - Every call has a deadline, and a connection that dies fails everything
//!   riding it at once rather than leaving callers to time out one by one.
//! - Retries are opt-in, because the hub cannot know whether a lost `Append`
//!   was applied.
//! - A subscription grants credit as the consumer drains it and withholds it
//!   when the consumer stalls, which is the client half of the server's flow
//!   control.
//! - A follower is the reason the rest exists: a log, rebuilt in memory and
//!   kept live across reconnects and gaps.

pub mod cli;
pub mod config;
pub mod conn;
pub mod error;
pub mod follower;
pub mod http;
pub mod hub;
pub mod pool;
pub mod sub;
pub mod transport;
pub mod view;
