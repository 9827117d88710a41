//! The order of a benchmark: what is measured when, and what ends it.

use super::config::{Config, Transport};
use super::error::{join, Error};
use super::measure::check_fd_growth;
use crate::proto::Durability;
use crate::text::{decimal, decimal_text, same};
use vstd::prelude::*;

verus! {

/// How many rounds of churn follow a load in a soak.
pub const CHURN_ROUNDS: usize = 4;

/// How far a benchmark is.
#[derive(Clone, Copy, Debug, PartialEq, Eq, Structural)]
pub enum Phase {
    /// Before anything.
    Cold,
    Isolation,
    Accepts,
    /// The logs of an epoch are created.
    Setup,
    /// Before the connections of an epoch.
    Warm,
    Open,
    Load,
    Cancel,
    Heartbeat,
    /// After the connections of an epoch.
    Settle,
    Churn(usize),
    Churned(usize),
    Crash,
    Replay,
    Over,
}

/// What to do.
#[derive(Clone, Copy, Debug, PartialEq, Eq, Structural)]
pub enum Job {
    /// Wait until the server has come to rest.
    Quiesce,
    /// Run the isolation probe.
    Isolation,
    /// Make connections and drop them.
    Accepts,
    /// Create the logs of the epoch, on a connection of their own.
    Setup,
    /// Open the connections of the epoch.
    Open,
    Load,
    /// Close the streams of the load.
    Cancel,
    Heartbeat,
    /// Drop the connections of the epoch and wait for rest.
    Settle,
    Churn,
    Crash,
    /// Play back what the load had acknowledged.
    Replay,
    Nothing,
}

/// What came of it.
#[derive(Clone, Copy, Debug, PartialEq, Eq, Structural)]
pub enum Outcome {
    Done,
    /// At rest, with so many descriptors and so much memory.
    Rest { fds: usize, rss: u64 },
    /// So many connections in so many nanoseconds.
    Accepted { count: usize, elapsed: u64 },
    /// All connections, after so many nanoseconds, with so much memory.
    Opened { elapsed: u64, rss: u64 },
}

/// What an epoch came to.
#[derive(Clone, Copy, Debug, PartialEq, Eq, Structural)]
pub struct EpochReport {
    pub epoch: usize,
    pub held_connections: usize,
    /// With those of event streams.
    pub held_sockets: usize,
    /// In nanoseconds.
    pub establishment: u64,
    pub warm_rss: u64,
    pub held_rss: u64,
    pub fd_checked: bool,
    pub fd_baseline: usize,
    pub fd_after: usize,
    pub replayed: bool,
}

/// How many epochs there are.
pub open spec fn epochs_of(cfg: Config) -> usize {
    if cfg.soak {
        cfg.soak_cycles
    } else {
        1
    }
}

/// How many sockets an epoch holds: over HTTP every stream has its own.
pub open spec fn sockets_of(cfg: Config) -> int {
    cfg.connections + if cfg.transport == Transport::Http {
        cfg.logs * cfg.subscribers
    } else {
        0
    }
}

pub struct BenchView {
    pub phase: Phase,
    pub cold_rss: u64,
    pub accepts: usize,
    pub accept_elapsed: u64,
    /// The epoch under way, as far as it is known.
    pub current: EpochReport,
    pub reports: Seq<EpochReport>,
}

/// An epoch of which nothing is known yet.
pub open spec fn fresh(cfg: Config, epoch: int) -> EpochReport {
    EpochReport {
        epoch: epoch as usize,
        held_connections: cfg.connections,
        held_sockets: sockets_of(cfg) as usize,
        establishment: 0,
        warm_rss: 0,
        held_rss: 0,
        fd_checked: cfg.soak,
        fd_baseline: 0,
        fd_after: 0,
        replayed: cfg.durability == Durability::Durable,
    }
}

pub open spec fn growth_text(baseline: usize, after: usize, slack: usize) -> Seq<char> {
    "FD LEAK: quiescent server fds grew from "@ + decimal(baseline as nat) + " to "@ + decimal(
        after as nat,
    ) + ", allowed slack "@ + decimal(slack as nat)
}

pub open spec fn leaks(baseline: usize, after: usize, slack: usize) -> bool {
    after > baseline + slack && baseline + slack <= usize::MAX
}

impl BenchView {
    pub open spec fn wf(self, cfg: Config) -> bool {
        &&& epochs_of(cfg) > 0
        &&& sockets_of(cfg) <= usize::MAX
        &&& self.reports.len() <= epochs_of(cfg)
        &&& self.phase is Over <==> self.reports.len() == epochs_of(cfg)
        &&& self.current.epoch == self.reports.len()
        &&& self.current.held_connections == cfg.connections
        &&& self.current.held_sockets == sockets_of(cfg)
        &&& self.current.fd_checked == cfg.soak
        &&& self.current.replayed == (cfg.durability == Durability::Durable)
        &&& forall|i: int|
            0 <= i < self.reports.len() ==> (#[trigger] self.reports[i]).epoch == i
                && self.reports[i].replayed == (cfg.durability == Durability::Durable)
                && !leaks(self.reports[i].fd_baseline, self.reports[i].fd_after, cfg.fd_slack)
        &&& self.phase is Crash || self.phase is Replay ==> !leaks(
            self.current.fd_baseline,
            self.current.fd_after,
            cfg.fd_slack,
        )
    }

    /// The epoch under way is done.
    pub open spec fn closing(self, cfg: Config) -> BenchView {
        BenchView {
            phase: if self.reports.len() + 1 < epochs_of(cfg) {
                Phase::Setup
            } else {
                Phase::Over
            },
            current: fresh(cfg, self.reports.len() + 1int),
            reports: self.reports.push(self.current),
            ..self
        }
    }

    /// Where a benchmark goes. What does not belong to a phase leaves it where
    /// it is; nothing but a leak ends it here.
    pub open spec fn onward(self, cfg: Config, outcome: Outcome) -> BenchView {
        match (self.phase, outcome) {
            (Phase::Cold, Outcome::Rest { rss, .. }) => BenchView {
                phase: Phase::Isolation,
                cold_rss: rss,
                ..self
            },
            (Phase::Isolation, Outcome::Done) => BenchView { phase: Phase::Accepts, ..self },
            (Phase::Accepts, Outcome::Accepted { count, elapsed }) => BenchView {
                phase: Phase::Setup,
                accepts: count,
                accept_elapsed: elapsed,
                ..self
            },
            (Phase::Setup, Outcome::Done) => BenchView { phase: Phase::Warm, ..self },
            (Phase::Warm, Outcome::Rest { rss, .. }) => BenchView {
                phase: Phase::Open,
                current: EpochReport { warm_rss: rss, ..self.current },
                ..self
            },
            (Phase::Open, Outcome::Opened { elapsed, rss }) => BenchView {
                phase: Phase::Load,
                current: EpochReport { establishment: elapsed, held_rss: rss, ..self.current },
                ..self
            },
            (Phase::Load, Outcome::Done) => BenchView { phase: Phase::Cancel, ..self },
            (Phase::Cancel, Outcome::Done) => BenchView { phase: Phase::Heartbeat, ..self },
            (Phase::Heartbeat, Outcome::Done) => BenchView { phase: Phase::Settle, ..self },
            (Phase::Settle, Outcome::Rest { fds, .. }) => BenchView {
                phase: if cfg.soak {
                    Phase::Churn(0)
                } else {
                    Phase::Crash
                },
                current: EpochReport { fd_baseline: fds, fd_after: fds, ..self.current },
                ..self
            },
            (Phase::Churn(n), Outcome::Done) => BenchView { phase: Phase::Churned(n), ..self },
            (Phase::Churned(n), Outcome::Rest { fds, .. }) => BenchView {
                phase: if n + 1 < CHURN_ROUNDS {
                    Phase::Churn((n + 1) as usize)
                } else {
                    Phase::Crash
                },
                current: EpochReport { fd_after: fds, ..self.current },
                ..self
            },
            (Phase::Crash, Outcome::Done) => if cfg.durability == Durability::Durable {
                BenchView { phase: Phase::Replay, ..self }
            } else {
                self.closing(cfg)
            },
            (Phase::Replay, Outcome::Done) => self.closing(cfg),
            _ => self,
        }
    }

    pub open spec fn job(self) -> Job {
        match self.phase {
            Phase::Cold => Job::Quiesce,
            Phase::Isolation => Job::Isolation,
            Phase::Accepts => Job::Accepts,
            Phase::Setup => Job::Setup,
            Phase::Warm => Job::Quiesce,
            Phase::Open => Job::Open,
            Phase::Load => Job::Load,
            Phase::Cancel => Job::Cancel,
            Phase::Heartbeat => Job::Heartbeat,
            Phase::Settle => Job::Settle,
            Phase::Churn(_) => Job::Churn,
            Phase::Churned(_) => Job::Quiesce,
            Phase::Crash => Job::Crash,
            Phase::Replay => Job::Replay,
            Phase::Over => Job::Nothing,
        }
    }
}

pub struct Bench {
    pub phase: Phase,
    pub cold_rss: u64,
    pub accepts: usize,
    /// In nanoseconds.
    pub accept_elapsed: u64,
    pub current: EpochReport,
    pub reports: Vec<EpochReport>,
}

fn begin_epoch(cfg: &Config, epoch: usize) -> (r: EpochReport)
    requires
        sockets_of(*cfg) <= usize::MAX,
    ensures
        r == fresh(*cfg, epoch as int),
{
    let streams: usize = if cfg.transport == Transport::Http {
        assert(cfg.logs * cfg.subscribers >= 0) by (nonlinear_arith);
        cfg.logs * cfg.subscribers
    } else {
        0
    };
    EpochReport {
        epoch,
        held_connections: cfg.connections,
        held_sockets: cfg.connections + streams,
        establishment: 0,
        warm_rss: 0,
        held_rss: 0,
        fd_checked: cfg.soak,
        fd_baseline: 0,
        fd_after: 0,
        replayed: cfg.durability == Durability::Durable,
    }
}

impl Bench {
    pub open spec fn view(&self) -> BenchView {
        BenchView {
            phase: self.phase,
            cold_rss: self.cold_rss,
            accepts: self.accepts,
            accept_elapsed: self.accept_elapsed,
            current: self.current,
            reports: self.reports@,
        }
    }

    pub fn new(cfg: &Config) -> (r: Self)
        requires
            epochs_of(*cfg) > 0,
            sockets_of(*cfg) <= usize::MAX,
        ensures
            r@.wf(*cfg),
            r@ == (BenchView {
                phase: Phase::Cold,
                cold_rss: 0,
                accepts: 0,
                accept_elapsed: 0,
                current: fresh(*cfg, 0),
                reports: Seq::empty(),
            }),
    {
        Bench {
            phase: Phase::Cold,
            cold_rss: 0,
            accepts: 0,
            accept_elapsed: 0,
            current: begin_epoch(cfg, 0),
            reports: Vec::new(),
        }
    }

    /// What to do now.
    pub fn job(&self) -> (r: Job)
        ensures
            r == self@.job(),
    {
        match self.phase {
            Phase::Cold => Job::Quiesce,
            Phase::Isolation => Job::Isolation,
            Phase::Accepts => Job::Accepts,
            Phase::Setup => Job::Setup,
            Phase::Warm => Job::Quiesce,
            Phase::Open => Job::Open,
            Phase::Load => Job::Load,
            Phase::Cancel => Job::Cancel,
            Phase::Heartbeat => Job::Heartbeat,
            Phase::Settle => Job::Settle,
            Phase::Churn(_) => Job::Churn,
            Phase::Churned(_) => Job::Quiesce,
            Phase::Crash => Job::Crash,
            Phase::Replay => Job::Replay,
            Phase::Over => Job::Nothing,
        }
    }

    fn close(&mut self, cfg: &Config)
        requires
            old(self)@.wf(*cfg),
            old(self).phase is Crash || old(self).phase is Replay,
        ensures
            final(self)@ == old(self)@.closing(*cfg),
            final(self)@.wf(*cfg),
    {
        let epochs = if cfg.soak {
            cfg.soak_cycles
        } else {
            1
        };
        let done = self.reports.len() + 1;
        self.reports.push(self.current);
        self.current = begin_epoch(cfg, done);
        self.phase = if done < epochs {
            Phase::Setup
        } else {
            Phase::Over
        };
    }

    /// It was done.
    pub fn done(&mut self, cfg: &Config, outcome: Outcome) -> (r: Result<(), Error>)
        requires
            old(self)@.wf(*cfg),
        ensures
            ({
                let next = old(self)@.onward(*cfg, outcome);
                let baseline = next.current.fd_baseline;
                let after = next.current.fd_after;
                if old(self).phase is Churned && outcome is Rest && leaks(
                    baseline,
                    after,
                    cfg.fd_slack,
                ) {
                    r is Err && r->Err_0.message@ == growth_text(baseline, after, cfg.fd_slack)
                } else {
                    r is Ok && final(self)@ == next && final(self)@.wf(*cfg)
                }
            }),
    {
        match (self.phase, outcome) {
            (Phase::Cold, Outcome::Rest { rss, .. }) => {
                self.cold_rss = rss;
                self.phase = Phase::Isolation;
            },
            (Phase::Isolation, Outcome::Done) => {
                self.phase = Phase::Accepts;
            },
            (Phase::Accepts, Outcome::Accepted { count, elapsed }) => {
                self.accepts = count;
                self.accept_elapsed = elapsed;
                self.phase = Phase::Setup;
            },
            (Phase::Setup, Outcome::Done) => {
                self.phase = Phase::Warm;
            },
            (Phase::Warm, Outcome::Rest { rss, .. }) => {
                self.current.warm_rss = rss;
                self.phase = Phase::Open;
            },
            (Phase::Open, Outcome::Opened { elapsed, rss }) => {
                self.current.establishment = elapsed;
                self.current.held_rss = rss;
                self.phase = Phase::Load;
            },
            (Phase::Load, Outcome::Done) => {
                self.phase = Phase::Cancel;
            },
            (Phase::Cancel, Outcome::Done) => {
                self.phase = Phase::Heartbeat;
            },
            (Phase::Heartbeat, Outcome::Done) => {
                self.phase = Phase::Settle;
            },
            (Phase::Settle, Outcome::Rest { fds, .. }) => {
                self.current.fd_baseline = fds;
                self.current.fd_after = fds;
                self.phase = if cfg.soak {
                    Phase::Churn(0)
                } else {
                    Phase::Crash
                };
            },
            (Phase::Churn(n), Outcome::Done) => {
                self.phase = Phase::Churned(n);
            },
            (Phase::Churned(n), Outcome::Rest { fds, .. }) => {
                match check_fd_growth(self.current.fd_baseline, fds, cfg.fd_slack) {
                    Ok(()) => {},
                    Err(e) => return Err(e),
                }
                self.current.fd_after = fds;
                self.phase = if n < CHURN_ROUNDS - 1 {
                    Phase::Churn(n + 1)
                } else {
                    Phase::Crash
                };
            },
            (Phase::Crash, Outcome::Done) => {
                if cfg.durability == Durability::Durable {
                    self.phase = Phase::Replay;
                } else {
                    self.close(cfg);
                }
            },
            (Phase::Replay, Outcome::Done) => {
                self.close(cfg);
            },
            _ => {},
        }
        Ok(())
    }
}

/// A benchmark that is over reports on every epoch, in order, none of which
/// leaked descriptors, and each of which was replayed where its appends were
/// durable.
pub proof fn benchmarks_cover_every_epoch(bench: BenchView, cfg: Config)
    requires
        bench.wf(cfg),
        bench.phase is Over,
    ensures
        bench.reports.len() == epochs_of(cfg),
        forall|i: int|
            0 <= i < bench.reports.len() ==> {
                &&& (#[trigger] bench.reports[i]).epoch == i
                &&& bench.reports[i].replayed == (cfg.durability == Durability::Durable)
                &&& !leaks(bench.reports[i].fd_baseline, bench.reports[i].fd_after, cfg.fd_slack)
            },
{
}

// ---------------------------------------------------------------------
// Names and words.

pub open spec fn log_name(epoch: nat, log: nat) -> Seq<char> {
    "load-"@ + decimal(epoch) + "-"@ + decimal(log)
}

/// The names of the logs of an epoch.
pub fn log_names(epoch: usize, logs: usize) -> (r: Vec<String>)
    ensures
        r@.len() == logs,
        forall|i: int| 0 <= i < logs ==> (#[trigger] r@[i])@ == log_name(epoch as nat, i as nat),
{
    let mut names: Vec<String> = Vec::new();
    let mut log: usize = 0;
    while log < logs
        invariant
            log <= logs,
            names@.len() == log,
            forall|i: int|
                0 <= i < log ==> (#[trigger] names@[i])@ == log_name(epoch as nat, i as nat),
        decreases logs - log,
    {
        let mut name = join("load-", decimal_text(epoch as u64).as_str(), "-");
        name.append(decimal_text(log as u64).as_str());
        names.push(name);
        log += 1;
    }
    names
}

/// What kind of benchmark it is.
pub fn mode(cfg: &Config) -> (r: &'static str)
    ensures
        r@ == if cfg.smoke {
            "smoke"@
        } else if cfg.soak {
            "soak"@
        } else {
            "load"@
        },
{
    if cfg.smoke {
        "smoke"
    } else if cfg.soak {
        "soak"
    } else {
        "load"
    }
}

pub open spec fn epoch_text(report: EpochReport) -> Seq<char> {
    "epoch "@ + decimal(report.epoch as nat) + ": PASS exact delivery to every subscriber"@ + (
    if report.replayed {
        " and durable replay after SIGKILL"@
    } else {
        " (weak-durability workload recovery not asserted)"@
    })
}

/// What to say after an epoch.
pub fn epoch_message(report: &EpochReport) -> (r: String)
    ensures
        r@ == epoch_text(*report),
{
    let mut out = join(
        "epoch ",
        decimal_text(report.epoch as u64).as_str(),
        ": PASS exact delivery to every subscriber",
    );
    out.append(
        if report.replayed {
            " and durable replay after SIGKILL"
        } else {
            " (weak-durability workload recovery not asserted)"
        },
    );
    out
}

/// What to say where there is no server to measure.
pub fn skip_reason(server: &str) -> (r: String)
    ensures
        r@ == "server executable "@ + server@
            + " is missing; no load or conformance measurements were made"@,
{
    join(
        "server executable ",
        server,
        " is missing; no load or conformance measurements were made",
    )
}

pub open spec fn exits_with(message: Seq<char>) -> u8 {
    if message == "interrupted by SIGINT"@ {
        130
    } else if message == "interrupted by SIGTERM"@ {
        143
    } else {
        1
    }
}

/// The exit code of a run that failed with this message.
pub fn exit_code(message: &str) -> (r: u8)
    ensures
        r == exits_with(message@),
{
    if same(message, "interrupted by SIGINT") {
        130
    } else if same(message, "interrupted by SIGTERM") {
        143
    } else {
        1
    }
}

// ---------------------------------------------------------------------
// What a benchmark goes through.

/// What a phase is left for: rest where it waits for that, numbers where it
/// measures, and else that it was done.
pub open spec fn suits(phase: Phase, outcome: Outcome) -> bool {
    match phase {
        Phase::Cold | Phase::Warm | Phase::Settle | Phase::Churned(_) => outcome is Rest,
        Phase::Accepts => outcome is Accepted,
        Phase::Open => outcome is Opened,
        Phase::Over => false,
        _ => outcome is Done,
    }
}

/// A phase is left for what suits it, and for nothing else; then the next one in
/// order begins. After a load a soak has its rounds of churn, one after another,
/// and a durable run its replay; the last phase of an epoch leads to the next epoch
/// while there is one.
pub proof fn benchmarks_skip_no_phase(bench: BenchView, cfg: Config, outcome: Outcome)
    ensures
        ({
            let next = bench.onward(cfg, outcome);
            let durable = cfg.durability == Durability::Durable;
            &&& !suits(bench.phase, outcome) ==> next == bench
            &&& suits(bench.phase, outcome) ==> {
                &&& bench.phase is Cold ==> next.phase is Isolation
                &&& bench.phase is Isolation ==> next.phase is Accepts
                &&& bench.phase is Accepts ==> next.phase is Setup
                &&& bench.phase is Setup ==> next.phase is Warm
                &&& bench.phase is Warm ==> next.phase is Open
                &&& bench.phase is Open ==> next.phase is Load
                &&& bench.phase is Load ==> next.phase is Cancel
                &&& bench.phase is Cancel ==> next.phase is Heartbeat
                &&& bench.phase is Heartbeat ==> next.phase is Settle
                &&& bench.phase is Settle && cfg.soak ==> next.phase == Phase::Churn(0)
                &&& bench.phase is Settle && !cfg.soak ==> next.phase is Crash
                &&& bench.phase is Churn ==> next.phase == Phase::Churned(bench.phase->Churn_0)
                &&& bench.phase is Churned && bench.phase->Churned_0 < 3 ==> next.phase
                    == Phase::Churn((bench.phase->Churned_0 + 1) as usize)
                &&& bench.phase is Churned && bench.phase->Churned_0 >= 3 ==> next.phase is Crash
                &&& bench.phase is Crash && durable ==> next.phase is Replay
                &&& (bench.phase is Crash && !durable) || bench.phase is Replay ==> {
                    &&& next.reports == bench.reports.push(bench.current)
                    &&& next.reports.len() < epochs_of(cfg) <==> next.phase is Setup
                    &&& next.reports.len() >= epochs_of(cfg) <==> next.phase is Over
                    &&& next.current.epoch == next.reports.len() as usize
                }
                &&& !(bench.phase is Crash || bench.phase is Replay) ==> next.reports
                    == bench.reports
            }
        }),
{
}

/// What a phase measures is what is reported: each number stands where it belongs,
/// and no other phase touches it.
pub proof fn measurements_are_reported(bench: BenchView, cfg: Config, outcome: Outcome)
    ensures
        ({
            let next = bench.onward(cfg, outcome);
            &&& bench.phase is Cold && outcome is Rest ==> next.cold_rss == outcome->Rest_rss
            &&& !(bench.phase is Cold) ==> next.cold_rss == bench.cold_rss
            &&& bench.phase is Accepts && outcome is Accepted ==> next.accepts == outcome->count
                && next.accept_elapsed == outcome->Accepted_elapsed
            &&& !(bench.phase is Accepts) ==> next.accepts == bench.accepts && next.accept_elapsed
                == bench.accept_elapsed
            &&& bench.phase is Warm && outcome is Rest ==> next.current == (EpochReport {
                warm_rss: outcome->Rest_rss,
                ..bench.current
            })
            &&& bench.phase is Open && outcome is Opened ==> next.current == (EpochReport {
                establishment: outcome->Opened_elapsed,
                held_rss: outcome->Opened_rss,
                ..bench.current
            })
            &&& bench.phase is Settle && outcome is Rest ==> next.current == (EpochReport {
                fd_baseline: outcome->fds,
                fd_after: outcome->fds,
                ..bench.current
            })
            &&& bench.phase is Churned && outcome is Rest ==> next.current == (EpochReport {
                fd_after: outcome->fds,
                ..bench.current
            })
        }),
{
}

/// Descriptors leak where there are more of them than the slack allows over those
/// at first.
pub proof fn leaks_are_growth_beyond_the_slack(baseline: usize, after: usize, slack: usize)
    ensures
        leaks(baseline, after, slack) <==> after > baseline + slack,
        after <= baseline ==> !leaks(baseline, after, slack),
{
}

/// A soak has as many epochs as it was asked for, and any other run has one; over
/// HTTP every stream holds a socket of its own besides the connections.
pub proof fn epochs_and_sockets(cfg: Config)
    ensures
        cfg.soak ==> epochs_of(cfg) == cfg.soak_cycles,
        !cfg.soak ==> epochs_of(cfg) == 1,
        cfg.transport == Transport::Unix ==> sockets_of(cfg) == cfg.connections,
        cfg.transport == Transport::Http ==> sockets_of(cfg) == cfg.connections + cfg.subscribers
            * cfg.logs,
{
    assert(cfg.logs * cfg.subscribers == cfg.subscribers * cfg.logs) by (nonlinear_arith);
}

proof fn lemma_no_hyphen(n: nat)
    ensures
        !decimal(n).contains('-'),
{
    crate::text::lemma_numeral(n, 10);
    if decimal(n).contains('-') {
        let i = choose|i: int| 0 <= i < decimal(n).len() && decimal(n)[i] == '-';
        assert(crate::text::digit_value(decimal(n)[i]) < 10);
    }
}

/// No two logs of a benchmark have the same name.
pub proof fn log_names_differ(epoch: nat, log: nat, other_epoch: nat, other_log: nat)
    requires
        log_name(epoch, log) == log_name(other_epoch, other_log),
    ensures
        epoch == other_epoch,
        log == other_log,
{
    let a = decimal(epoch).push('-') + decimal(log);
    let b = decimal(other_epoch).push('-') + decimal(other_log);
    reveal_strlit("-");
    let load = "load-"@;
    assert(log_name(epoch, log) =~= load + a);
    assert(log_name(other_epoch, other_log) =~= load + b);
    assert(a =~= log_name(epoch, log).skip(load.len() as int));
    assert(b =~= log_name(other_epoch, other_log).skip(load.len() as int));
    lemma_no_hyphen(epoch);
    lemma_no_hyphen(other_epoch);
    crate::words::text_is_parted_at_the_first(decimal(epoch), '-', decimal(log));
    crate::words::text_is_parted_at_the_first(decimal(other_epoch), '-', decimal(other_log));
    crate::text::lemma_numeral(epoch, 10);
    crate::text::lemma_numeral(other_epoch, 10);
    crate::text::lemma_numeral(log, 10);
    crate::text::lemma_numeral(other_log, 10);
}

/// A run that a signal ended exits with 128 and the number of the signal, and any
/// other failed run with 1.
pub proof fn signals_show_in_the_exit_code(message: Seq<char>)
    ensures
        message == "interrupted by SIGINT"@ ==> exits_with(message) == 128 + 2,
        message == "interrupted by SIGTERM"@ ==> exits_with(message) == 128 + 15,
        message != "interrupted by SIGINT"@ && message != "interrupted by SIGTERM"@ ==> exits_with(
            message,
        ) == 1,
{
    reveal_strlit("interrupted by SIGINT");
    reveal_strlit("interrupted by SIGTERM");
    assert("interrupted by SIGINT"@.len() != "interrupted by SIGTERM"@.len());
}

/// Every phase has its own work, memory and descriptors are looked at only at rest,
/// and there is nothing left to do exactly when it is over.
pub proof fn phases_have_their_work(bench: BenchView)
    ensures
        bench.job() is Nothing <==> bench.phase is Over,
        bench.job() is Quiesce <==> bench.phase is Cold || bench.phase is Warm || bench.phase
            is Churned,
        bench.job() is Settle <==> bench.phase is Settle,
        bench.job() is Isolation <==> bench.phase is Isolation,
        bench.job() is Accepts <==> bench.phase is Accepts,
        bench.job() is Setup <==> bench.phase is Setup,
        bench.job() is Open <==> bench.phase is Open,
        bench.job() is Load <==> bench.phase is Load,
        bench.job() is Cancel <==> bench.phase is Cancel,
        bench.job() is Heartbeat <==> bench.phase is Heartbeat,
        bench.job() is Churn <==> bench.phase is Churn,
        bench.job() is Crash <==> bench.phase is Crash,
        bench.job() is Replay <==> bench.phase is Replay,
{
}

/// An epoch claims a durable replay exactly where it had one, and says otherwise
/// that recovery was not asserted.
pub proof fn epochs_claim_what_they_checked(report: EpochReport)
    ensures
        ({
            let passed = "epoch "@ + decimal(report.epoch as nat)
                + ": PASS exact delivery to every subscriber"@;
            &&& report.replayed ==> epoch_text(report) == passed
                + " and durable replay after SIGKILL"@
            &&& !report.replayed ==> epoch_text(report) == passed
                + " (weak-durability workload recovery not asserted)"@
        }),
{
}

} // verus!
