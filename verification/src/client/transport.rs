//! Where a hub connects, chosen by the caller.

use vstd::prelude::*;

verus! {

/// Where a hub connects, chosen by the caller.
///
/// The pool and the multiplexer above it are transport-agnostic: the same
/// frames, the same ids. Only the bytes underneath differ.
#[derive(Debug, PartialEq, Eq)]
pub enum Transport {
    /// The daemon's unix socket, `<run>/lug.sock`.
    Unix(String),
    /// Loopback HTTP. `base` is an origin such as `http://127.0.0.1:7717`;
    /// `token` is the bearer token, which is sent and never logged.
    Http { base: String, token: String },
}

impl Clone for Transport {
    fn clone(&self) -> (r: Self)
        ensures
            r == *self,
    {
        match self {
            Transport::Unix(path) => Transport::Unix(path.clone()),
            Transport::Http { base, token } => Transport::Http {
                base: base.clone(),
                token: token.clone(),
            },
        }
    }
}

impl Transport {
    pub fn unix(path: String) -> (r: Self)
        ensures
            r == Transport::Unix(path),
    {
        Transport::Unix(path)
    }

    pub fn http(base: String, token: String) -> (r: Self)
        ensures
            r == (Transport::Http { base, token }),
    {
        Transport::Http { base, token }
    }

    /// For error messages, never for routing.
    pub fn target(&self) -> (r: String)
        ensures
            r == match *self {
                Transport::Unix(path) => path,
                Transport::Http { base, .. } => base,
            },
    {
        match self {
            Transport::Unix(path) => path.clone(),
            Transport::Http { base, .. } => base.clone(),
        }
    }

    /// Only a unix connection begins with a `Hello`. Over HTTP each call is
    /// its own request and there is no connection to greet.
    pub fn wants_handshake(&self) -> (r: bool)
        ensures
            r == (*self is Unix),
    {
        matches!(self, Transport::Unix(_))
    }
}

} // verus!
