//! How a hub is built.

use vstd::arithmetic::power2::{lemma2_to64, lemma_pow2_pos, lemma_pow2_unfold, pow2};
use vstd::prelude::*;

verus! {

/// Reconnection delays, in nanoseconds. Deterministic doubling; there is one
/// daemon on the other end, not a thundering herd of shards, so jitter buys
/// nothing.
#[derive(Clone, Copy, Debug, PartialEq, Eq, Structural)]
pub struct Backoff {
    pub min: u64,
    pub max: u64,
}

impl Default for Backoff {
    fn default() -> (r: Self)
        ensures
            r == (Backoff { min: 50_000_000, max: 5_000_000_000 }),
    {
        Backoff { min: 50_000_000, max: 5_000_000_000 }
    }
}

impl Backoff {
    /// The delay after `n` failures in a row, the first of which waits `min`.
    pub open spec fn delay(self, n: nat) -> int
        decreases n,
    {
        if n == 0 {
            self.min as int
        } else {
            self.doubled(self.delay((n - 1) as nat))
        }
    }

    pub open spec fn doubled(self, delay: int) -> int {
        if 2 * delay < self.max {
            2 * delay
        } else {
            self.max as int
        }
    }

    /// The delay after one of `delay` did not help.
    pub fn next(&self, delay: u64) -> (r: u64)
        ensures
            r == self.doubled(delay as int),
    {
        if delay < self.max && delay < self.max - delay {
            delay + delay
        } else {
            self.max
        }
    }
}

/// Delays never shrink while connecting keeps failing, and never exceed the
/// maximum.
pub proof fn delays_grow_to_the_maximum(backoff: Backoff, n: nat)
    requires
        backoff.min <= backoff.max,
    ensures
        backoff.min <= backoff.delay(n) <= backoff.delay(n + 1) <= backoff.max,
    decreases n,
{
    if n > 0 {
        delays_grow_to_the_maximum(backoff, (n - 1) as nat);
    }
}

/// Every field has a sane default; reach for the hub's builder rather than
/// this struct.
#[derive(Clone, Copy, Debug, PartialEq, Eq, Structural)]
pub struct Config {
    /// Connections held open. One core's worth of parallelism each, since the
    /// server assigns log actors to cores.
    pub connections: usize,
    /// Ceiling on every call, in nanoseconds. A call that has not been
    /// answered by now fails with a timeout; it never hangs.
    pub timeout: u64,
    /// Initial credit granted to a new subscription, and the size of the
    /// buffer that holds pushed frames for the consumer.
    pub credit: u32,
    /// Depth of each connection's command queue. Also caps how many written
    /// frames may be waiting on a slow sink.
    pub queue: usize,
    pub backoff: Backoff,
}

impl Config {
    pub open spec fn fitting(parallelism: Option<usize>) -> Config {
        Config {
            connections: match parallelism {
                Some(n) => n,
                None => 4,
            },
            timeout: 10_000_000_000,
            credit: 256,
            queue: 256,
            backoff: Backoff { min: 50_000_000, max: 5_000_000_000 },
        }
    }

    /// The defaults, on a machine that offers `parallelism` threads at once,
    /// if it says.
    pub fn for_machine(parallelism: Option<usize>) -> (r: Self)
        ensures
            r == Config::fitting(parallelism),
    {
        Config {
            connections: match parallelism {
                Some(n) => n,
                None => 4,
            },
            timeout: 10_000_000_000,
            credit: 256,
            queue: 256,
            backoff: Backoff::default(),
        }
    }
}

/// Whether a failed call may be sent again.
///
/// The default is never, because the hub cannot know what a lost connection
/// did with the request it was carrying: an `Append` may well have been
/// applied before the socket died. Only the caller knows whether resending is
/// harmless, so only the caller can ask for it.
#[derive(Clone, Copy, Debug, PartialEq, Eq, Structural)]
pub enum Retry {
    Never,
    /// Resend up to `attempts` further times when the failure was transient:
    /// a broken connection, a timeout, a storage error the server says did
    /// not happen.
    Idempotent { attempts: u8 },
}

impl Default for Retry {
    fn default() -> (r: Self)
        ensures
            r == Retry::Never,
    {
        Retry::Never
    }
}

impl Retry {
    pub fn idempotent(attempts: u8) -> (r: Self)
        ensures
            r == (Retry::Idempotent { attempts }),
    {
        Retry::Idempotent { attempts }
    }

    pub open spec fn spec_attempts(self) -> u8 {
        match self {
            Retry::Never => 0,
            Retry::Idempotent { attempts } => attempts,
        }
    }

    #[verifier::when_used_as_spec(spec_attempts)]
    pub fn attempts(self) -> (r: u8)
        ensures
            r == self.spec_attempts(),
    {
        match self {
            Retry::Never => 0,
            Retry::Idempotent { attempts } => attempts,
        }
    }
}

/// Delays double from the minimum until they reach the maximum: after `n`
/// failures in a row the delay is `2^n` times the minimum, or the maximum where
/// that is less.
pub proof fn delays_double(backoff: Backoff, n: nat)
    requires
        backoff.min <= backoff.max,
    ensures
        backoff.delay(n) == if backoff.min * pow2(n) <= backoff.max {
            backoff.min * pow2(n)
        } else {
            backoff.max as int
        },
    decreases n,
{
    let min = backoff.min as int;
    if n == 0 {
        lemma2_to64();
        assert(min * pow2(0) == min) by (nonlinear_arith)
            requires
                pow2(0) == 1,
        ;
    } else {
        let less = (n - 1) as nat;
        delays_double(backoff, less);
        lemma_pow2_unfold(n);
        lemma_pow2_pos(less);
        let before = min * pow2(less);
        assert(min * pow2(n) == 2 * before) by (nonlinear_arith)
            requires
                pow2(n) == 2 * pow2(less),
                before == min * pow2(less),
        ;
        assert(before >= 0) by (nonlinear_arith)
            requires
                before == min * pow2(less),
                min >= 0,
                pow2(less) > 0,
        ;
    }
}

/// As many resends are left at first as the caller asked for, and none unless
/// they did.
pub proof fn policies_say_how_often(attempts: u8)
    ensures
        (Retry::Idempotent { attempts }).attempts() == attempts,
        Retry::Never.attempts() == 0,
{
}

/// A hub holds one connection for each thread that the machine offers at once,
/// waits ten seconds for an answer, and dials again after a twentieth of a second at
/// first and five seconds at most.
pub proof fn hubs_fit_their_machine(parallelism: Option<usize>)
    ensures
        ({
            let cfg = Config::fitting(parallelism);
            &&& parallelism is Some ==> cfg.connections == parallelism->0
            &&& parallelism is None ==> cfg.connections == 4
            &&& cfg.timeout == 10 * 1_000_000_000
            &&& cfg.backoff.min * 20 == 1_000_000_000 && cfg.backoff.max == 5 * 1_000_000_000
            &&& cfg.credit == 256 && cfg.queue == 256
        }),
{
}

} // verus!
