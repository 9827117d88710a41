//! Settings of a load run, and how the command line spells them.

use super::error::{error, join, pair, Error};
use super::seconds::{spans_fit_a_day, Seconds, DAY, DAY_BITS};
use crate::proto::Durability;
use crate::quote::{quote, quoted};
use crate::text::{decimal_text, parse_unsigned, same};
use vstd::prelude::*;

verus! {

pub const HELP: &'static str = "lug-load: raw-socket load and conformance tests for lug-server

Usage: lug-load [OPTIONS]

  --server PATH          Server executable [sibling lug-server, then PATH]
  --connections N        Held transport connections [10000]
  --logs N               Independent Noop logs [1]
  --appenders-per-log N   Writer lanes per log [1]
  --subscribers-per-log N  Checked streams per log [1]
  --patch-size N         JSON string payload bytes, minimum 16 [256]
  --durability MODE      memory, written, durable [durable]
  --rate N               Global scheduled appends per second [1000]
  --duration SECONDS     Fixed scheduling window, accepts decimals [10]
  --transport MODE       unix or http [unix]
  --accepts N            Separate short-lived handshake count [1000]
  --parallel N           Parallel connection setup/accept workers [128]
  --max-inflight N       Hard limit on outstanding appends [65536]
  --timeout SECONDS      Startup, probe and drain deadline [30]
  --smoke               One-connection end-to-end check, a few seconds
  --soak                Repeat measured epochs with crash/replay and fd checks
  --soak-cycles N        Number of epochs in soak mode [10]
  --fd-slack N           Allowed post-churn fd growth [0]
  --json                Emit one schema-versioned JSON object
  -h, --help            Show help
  --version             Show version

Examples:
  lug-load --connections 10000 --rate 10000 --duration 60
  lug-load --soak --connections 100 --soak-cycles 20 --json

Every successful run includes a same-connection credit isolation probe.
Durable runs include SIGKILL and exact acknowledged-record replay.
Missing server executable is a reported skip, not a measurement.
";

#[derive(Clone, Copy, Debug, PartialEq, Eq, Structural)]
pub enum Transport {
    Unix,
    Http,
}

#[derive(Clone, Debug, PartialEq, Eq)]
pub struct Config {
    pub server: String,
    pub connections: usize,
    pub logs: usize,
    pub appenders: usize,
    pub subscribers: usize,
    pub patch_size: usize,
    pub durability: Durability,
    pub rate: u64,
    /// In nanoseconds.
    pub duration: u64,
    pub transport: Transport,
    pub accepts: usize,
    pub parallel: usize,
    pub max_inflight: usize,
    /// In nanoseconds.
    pub timeout: u64,
    pub smoke: bool,
    pub soak: bool,
    pub soak_cycles: usize,
    pub fd_slack: usize,
    pub json: bool,
}

/// The settings of a run without options.
pub open spec fn plain(server: String) -> Config {
    Config {
        server,
        connections: 10_000,
        logs: 1,
        appenders: 1,
        subscribers: 1,
        patch_size: 256,
        durability: Durability::Durable,
        rate: 1000,
        duration: 10_000_000_000,
        transport: Transport::Unix,
        accepts: 1000,
        parallel: 128,
        max_inflight: 65536,
        timeout: 30_000_000_000,
        smoke: false,
        soak: false,
        soak_cycles: 10,
        fd_slack: 0,
        json: false,
    }
}

/// The settings that `--smoke`, wherever it stands, starts from.
pub open spec fn small(server: String) -> Config {
    Config {
        smoke: true,
        connections: 1,
        rate: 20,
        duration: 1_000_000_000,
        accepts: 4,
        parallel: 1,
        ..plain(server)
    }
}

pub open spec fn starting(args: Seq<String>, server: String) -> Config {
    if exists|i: int| 0 <= i < args.len() && (#[trigger] args[i])@ == "--smoke"@ {
        small(server)
    } else {
        plain(server)
    }
}

/// The number of appends that rate and duration schedule.
pub open spec fn scheduled(cfg: Config) -> nat {
    (cfg.duration * cfg.rate / 1_000_000_000) as nat
}

pub open spec fn count(value: Seq<char>) -> Option<usize> {
    match crate::text::unsigned_up_to(value, 10, usize::MAX as nat) {
        Some(n) => Some(n as usize),
        None => None,
    }
}

pub open spec fn bad_value(flag: Seq<char>, value: Seq<char>) -> Seq<char> {
    "invalid "@ + flag + ": "@ + quoted(value)
}

/// `cfg` after an option that takes a count.
pub open spec fn with_count(cfg: Config, flag: Seq<char>, n: usize) -> Config {
    if flag == "--connections"@ {
        Config { connections: n, ..cfg }
    } else if flag == "--logs"@ {
        Config { logs: n, ..cfg }
    } else if flag == "--appenders-per-log"@ {
        Config { appenders: n, ..cfg }
    } else if flag == "--subscribers-per-log"@ {
        Config { subscribers: n, ..cfg }
    } else if flag == "--patch-size"@ {
        Config { patch_size: n, ..cfg }
    } else if flag == "--rate"@ {
        Config { rate: n as u64, ..cfg }
    } else if flag == "--accepts"@ {
        Config { accepts: n, ..cfg }
    } else if flag == "--parallel"@ {
        Config { parallel: n, ..cfg }
    } else if flag == "--max-inflight"@ {
        Config { max_inflight: n, ..cfg }
    } else if flag == "--soak-cycles"@ {
        Config { soak_cycles: n, ..cfg }
    } else {
        Config { fd_slack: n, ..cfg }
    }
}

pub open spec fn takes_count(flag: Seq<char>) -> bool {
    ||| flag == "--connections"@
    ||| flag == "--logs"@
    ||| flag == "--appenders-per-log"@
    ||| flag == "--subscribers-per-log"@
    ||| flag == "--patch-size"@
    ||| flag == "--rate"@
    ||| flag == "--accepts"@
    ||| flag == "--parallel"@
    ||| flag == "--max-inflight"@
    ||| flag == "--soak-cycles"@
    ||| flag == "--fd-slack"@
}

/// `cfg` after one option and its value, or what is wrong with them.
pub open spec fn with_option(
    cfg: Config,
    flag: Seq<char>,
    value: String,
    seconds: Option<Seconds>,
) -> Result<Config, Seq<char>> {
    if flag == "--server"@ {
        Ok(Config { server: value, ..cfg })
    } else if takes_count(flag) {
        match count(value@) {
            Some(n) => Ok(with_count(cfg, flag, n)),
            None => Err(bad_value(flag, value@)),
        }
    } else if flag == "--duration"@ || flag == "--timeout"@ {
        match seconds {
            None => Err(bad_value(flag, value@)),
            Some(s) => if !s.within_a_day() {
                Err(flag + " must be in (0, 86400], got "@ + value@)
            } else if s.nanos() == 0 {
                Err(flag + " is below clock resolution: "@ + value@)
            } else if flag == "--duration"@ {
                Ok(Config { duration: s.nanos() as u64, ..cfg })
            } else {
                Ok(Config { timeout: s.nanos() as u64, ..cfg })
            },
        }
    } else if flag == "--transport"@ {
        if value@ == "unix"@ {
            Ok(Config { transport: Transport::Unix, ..cfg })
        } else if value@ == "http"@ {
            Ok(Config { transport: Transport::Http, ..cfg })
        } else {
            Err("invalid transport "@ + quoted(value@))
        }
    } else if flag == "--durability"@ {
        if value@ == "memory"@ {
            Ok(Config { durability: Durability::Memory, ..cfg })
        } else if value@ == "written"@ {
            Ok(Config { durability: Durability::Written, ..cfg })
        } else if value@ == "durable"@ {
            Ok(Config { durability: Durability::Durable, ..cfg })
        } else {
            Err("invalid durability "@ + quoted(value@))
        }
    } else {
        Err("unknown option "@ + quoted(flag))
    }
}

/// The options from `i` on, folded into `cfg` from left to right.
pub open spec fn options(
    args: Seq<String>,
    seconds: Seq<Option<Seconds>>,
    cfg: Config,
    i: int,
) -> Result<Config, Seq<char>>
    decreases args.len() - i,
{
    if i < 0 || i >= args.len() {
        Ok(cfg)
    } else if args[i]@ == "--smoke"@ {
        options(args, seconds, Config { smoke: true, ..cfg }, i + 1)
    } else if args[i]@ == "--soak"@ {
        options(args, seconds, Config { soak: true, ..cfg }, i + 1)
    } else if args[i]@ == "--json"@ {
        options(args, seconds, Config { json: true, ..cfg }, i + 1)
    } else if args[i]@ == "--"@ {
        if i + 1 < args.len() {
            Err("unexpected positional argument "@ + quoted(args[i + 1]@))
        } else {
            Ok(cfg)
        }
    } else if i + 1 >= args.len() {
        Err("missing value for "@ + args[i]@)
    } else {
        match with_option(cfg, args[i]@, args[i + 1], seconds[i + 1]) {
            Ok(next) => options(args, seconds, next, i + 2),
            Err(e) => Err(e),
        }
    }
}

pub open spec fn not_positive(name: Seq<char>) -> Seq<char> {
    "--"@ + name + " must be positive, got 0"@
}

/// The first rule that a set of options breaks.
pub open spec fn fault(cfg: Config) -> Option<Seq<char>> {
    if cfg.smoke && (cfg.connections != 1 || cfg.logs != 1 || cfg.appenders != 1
        || cfg.subscribers != 1) {
        Some(
            "--smoke requires one connection, log, appender and subscriber; omit it for a load run"@,
        )
    } else if cfg.smoke && cfg.soak {
        Some("--smoke and --soak are separate modes"@)
    } else if cfg.connections == 0 {
        Some(not_positive("connections"@))
    } else if cfg.logs == 0 {
        Some(not_positive("logs"@))
    } else if cfg.appenders == 0 {
        Some(not_positive("appenders-per-log"@))
    } else if cfg.subscribers == 0 {
        Some(not_positive("subscribers-per-log"@))
    } else if cfg.rate == 0 {
        Some(not_positive("rate"@))
    } else if cfg.parallel == 0 {
        Some(not_positive("parallel"@))
    } else if cfg.max_inflight == 0 {
        Some(not_positive("max-inflight"@))
    } else if cfg.soak_cycles == 0 {
        Some(not_positive("soak-cycles"@))
    } else if !(16 <= cfg.patch_size <= 8 * 1024 * 1024) {
        Some("--patch-size must be 16..8388608, got "@ + crate::text::decimal(cfg.patch_size as nat))
    } else if cfg.logs * cfg.appenders > usize::MAX || cfg.logs * cfg.subscribers > usize::MAX {
        Some("log/worker count overflow"@)
    } else if scheduled(cfg) > u64::MAX {
        Some("rate times duration exceeds u64"@)
    } else if scheduled(cfg) > u64::MAX - 0x1_0000_0000 - 16 {
        Some("workload exhausts protocol request ids"@)
    } else if scheduled(cfg) == 0 {
        Some("rate times duration must schedule at least one append"@)
    } else {
        None
    }
}

/// What a command line means.
pub open spec fn meaning(
    args: Seq<String>,
    seconds: Seq<Option<Seconds>>,
    server: String,
) -> Result<Config, Seq<char>> {
    match options(args, seconds, starting(args, server), 0) {
        Err(e) => Err(e),
        Ok(cfg) => match fault(cfg) {
            Some(e) => Err(e),
            None => Ok(cfg),
        },
    }
}

proof fn lemma_options_fit_a_day(
    args: Seq<String>,
    seconds: Seq<Option<Seconds>>,
    cfg: Config,
    i: int,
)
    requires
        cfg.in_a_day(),
    ensures
        options(args, seconds, cfg, i) matches Ok(after) ==> after.in_a_day(),
    decreases args.len() - i,
{
    if 0 <= i < args.len() {
        if args[i]@ == "--smoke"@ {
            lemma_options_fit_a_day(args, seconds, Config { smoke: true, ..cfg }, i + 1);
        } else if args[i]@ == "--soak"@ {
            lemma_options_fit_a_day(args, seconds, Config { soak: true, ..cfg }, i + 1);
        } else if args[i]@ == "--json"@ {
            lemma_options_fit_a_day(args, seconds, Config { json: true, ..cfg }, i + 1);
        } else if args[i]@ != "--"@ && i + 1 < args.len() {
            if let Some(s) = seconds[i + 1] {
                if s.within_a_day() {
                    spans_fit_a_day(s);
                }
            }
            if let Ok(next) = with_option(cfg, args[i]@, args[i + 1], seconds[i + 1]) {
                lemma_options_fit_a_day(args, seconds, next, i + 2);
            }
        }
    }
}

/// Whatever a command line says, a run that it sets up and the wait for it each
/// take some time, and a day at most.
pub proof fn windows_fit_a_day(args: Seq<String>, seconds: Seq<Option<Seconds>>, server: String)
    ensures
        meaning(args, seconds, server) matches Ok(cfg) ==> cfg.in_a_day(),
{
    lemma_options_fit_a_day(args, seconds, starting(args, server), 0);
}

/// `r` is what `spec` says, message for message.
pub open spec fn as_stated<T>(r: Result<T, Error>, spec: Result<T, Seq<char>>) -> bool {
    match r {
        Ok(v) => spec == Ok::<T, Seq<char>>(v),
        Err(e) => spec == Err::<T, Seq<char>>(e.message@),
    }
}

fn option_of(cfg: Config, flag: &String, value: &String, seconds: Option<Seconds>) -> (r: Result<
    Config,
    Error,
>)
    ensures
        as_stated(r, with_option(cfg, flag@, *value, seconds)),
{
    let f = flag.as_str();
    let v = value.as_str();
    let mut cfg = cfg;
    if same(f, "--server") {
        cfg.server = value.clone();
        return Ok(cfg);
    }
    let counted = same(f, "--connections") || same(f, "--logs") || same(f, "--appenders-per-log")
        || same(f, "--subscribers-per-log") || same(f, "--patch-size") || same(f, "--rate")
        || same(f, "--accepts") || same(f, "--parallel") || same(f, "--max-inflight") || same(
        f,
        "--soak-cycles",
    ) || same(f, "--fd-slack");
    if counted {
        let n: usize = match parse_unsigned(v, 10, usize::MAX as u64) {
            Some(n) => n as usize,
            None => return Err(
                error(pair(join("invalid ", f, ": ").as_str(), quote(v).as_str())),
            ),
        };
        if same(f, "--connections") {
            cfg.connections = n;
        } else if same(f, "--logs") {
            cfg.logs = n;
        } else if same(f, "--appenders-per-log") {
            cfg.appenders = n;
        } else if same(f, "--subscribers-per-log") {
            cfg.subscribers = n;
        } else if same(f, "--patch-size") {
            cfg.patch_size = n;
        } else if same(f, "--rate") {
            cfg.rate = n as u64;
        } else if same(f, "--accepts") {
            cfg.accepts = n;
        } else if same(f, "--parallel") {
            cfg.parallel = n;
        } else if same(f, "--max-inflight") {
            cfg.max_inflight = n;
        } else if same(f, "--soak-cycles") {
            cfg.soak_cycles = n;
        } else {
            cfg.fd_slack = n;
        }
        return Ok(cfg);
    }
    if same(f, "--duration") || same(f, "--timeout") {
        let s = match seconds {
            Some(s) => s,
            None => return Err(
                error(pair(join("invalid ", f, ": ").as_str(), quote(v).as_str())),
            ),
        };
        if s.bits == 0 || s.bits > DAY_BITS {
            return Err(error(join(f, " must be in (0, 86400], got ", v)));
        }
        let nanos = s.span();
        if nanos == 0 {
            return Err(error(join(f, " is below clock resolution: ", v)));
        }
        if same(f, "--duration") {
            cfg.duration = nanos;
        } else {
            cfg.timeout = nanos;
        }
        return Ok(cfg);
    }
    if same(f, "--transport") {
        if same(v, "unix") {
            cfg.transport = Transport::Unix;
        } else if same(v, "http") {
            cfg.transport = Transport::Http;
        } else {
            return Err(error(pair("invalid transport ", quote(v).as_str())));
        }
        return Ok(cfg);
    }
    if same(f, "--durability") {
        if same(v, "memory") {
            cfg.durability = Durability::Memory;
        } else if same(v, "written") {
            cfg.durability = Durability::Written;
        } else if same(v, "durable") {
            cfg.durability = Durability::Durable;
        } else {
            return Err(error(pair("invalid durability ", quote(v).as_str())));
        }
        return Ok(cfg);
    }
    Err(error(pair("unknown option ", quote(f).as_str())))
}

impl Default for Config {
    /// The settings of a run without options, with the server found by its
    /// name.
    fn default() -> (r: Self)
        ensures
            r.server@ == "lug-server"@,
            r == plain(r.server),
    {
        Config::with_server(String::from_str("lug-server"))
    }
}

impl Config {
    /// The run and the wait for it are each some time, and a day at most.
    pub open spec fn in_a_day(self) -> bool {
        0 < self.duration <= DAY && 0 < self.timeout <= DAY
    }

    /// The settings of a run without options, for the server executable
    /// `server`.
    pub fn with_server(server: String) -> (r: Self)
        ensures
            r == plain(server),
    {
        Config {
            server,
            connections: 10_000,
            logs: 1,
            appenders: 1,
            subscribers: 1,
            patch_size: 256,
            durability: Durability::Durable,
            rate: 1000,
            duration: 10_000_000_000,
            transport: Transport::Unix,
            accepts: 1000,
            parallel: 128,
            max_inflight: 65536,
            timeout: 30_000_000_000,
            smoke: false,
            soak: false,
            soak_cycles: 10,
            fd_slack: 0,
            json: false,
        }
    }

    /// Read a command line. `seconds[i]` is what `args[i]` says as a number of
    /// seconds, or `None` where it is no number; it counts only where the
    /// argument is the value of `--duration` or `--timeout`. `server` is the
    /// server executable for want of `--server`.
    pub fn parse(args: &Vec<String>, seconds: &Vec<Option<Seconds>>, server: String) -> (r: Result<
        Self,
        Error,
    >)
        requires
            seconds.len() == args.len(),
        ensures
            as_stated(r, meaning(args@, seconds@, server)),
            r matches Ok(cfg) ==> cfg.in_a_day(),
    {
        proof {
            windows_fit_a_day(args@, seconds@, server);
        }
        let mut smoke = false;
        let mut i: usize = 0;
        while i < args.len()
            invariant
                i <= args.len(),
                smoke == exists|j: int| 0 <= j < i && (#[trigger] args@[j])@ == "--smoke"@,
            decreases args.len() - i,
        {
            if same(args[i].as_str(), "--smoke") {
                smoke = true;
            }
            i += 1;
        }
        let mut cfg = Self::with_server(server);
        if smoke {
            cfg.smoke = true;
            cfg.connections = 1;
            cfg.rate = 20;
            cfg.duration = 1_000_000_000;
            cfg.accepts = 4;
            cfg.parallel = 1;
        }
        assert(cfg == starting(args@, server));
        i = 0;
        while i < args.len()
            invariant_except_break
                options(args@, seconds@, cfg, i as int) == options(
                    args@,
                    seconds@,
                    starting(args@, server),
                    0,
                ),
            invariant
                i <= args.len(),
                seconds.len() == args.len(),
            ensures
                options(args@, seconds@, starting(args@, server), 0) == Ok::<Config, Seq<char>>(
                    cfg,
                ),
            decreases args.len() - i,
        {
            let flag = &args[i];
            if same(flag.as_str(), "--smoke") {
                cfg.smoke = true;
                i += 1;
            } else if same(flag.as_str(), "--soak") {
                cfg.soak = true;
                i += 1;
            } else if same(flag.as_str(), "--json") {
                cfg.json = true;
                i += 1;
            } else if same(flag.as_str(), "--") {
                if i + 1 < args.len() {
                    return Err(
                        error(
                            pair(
                                "unexpected positional argument ",
                                quote(args[i + 1].as_str()).as_str(),
                            ),
                        ),
                    );
                }
                break;
            } else {
                if i + 1 >= args.len() {
                    return Err(error(pair("missing value for ", flag.as_str())));
                }
                cfg = match option_of(cfg, flag, &args[i + 1], seconds[i + 1]) {
                    Ok(next) => next,
                    Err(e) => return Err(e),
                };
                i += 2;
            }
        }
        match cfg.check() {
            Ok(()) => Ok(cfg),
            Err(e) => Err(e),
        }
    }

    /// Whether the options go together.
    pub fn check(&self) -> (r: Result<(), Error>)
        ensures
            match r {
                Ok(()) => fault(*self) is None,
                Err(e) => fault(*self) == Some(e.message@),
            },
    {
        if self.smoke && (self.connections != 1 || self.logs != 1 || self.appenders != 1
            || self.subscribers != 1) {
            return Err(
                error(
                    String::from_str(
                        "--smoke requires one connection, log, appender and subscriber; omit it for a load run",
                    ),
                ),
            );
        }
        if self.smoke && self.soak {
            return Err(error(String::from_str("--smoke and --soak are separate modes")));
        }
        let name = if self.connections == 0 {
            "connections"
        } else if self.logs == 0 {
            "logs"
        } else if self.appenders == 0 {
            "appenders-per-log"
        } else if self.subscribers == 0 {
            "subscribers-per-log"
        } else if self.rate == 0 {
            "rate"
        } else if self.parallel == 0 {
            "parallel"
        } else if self.max_inflight == 0 {
            "max-inflight"
        } else if self.soak_cycles == 0 {
            "soak-cycles"
        } else {
            ""
        };
        if self.connections == 0 || self.logs == 0 || self.appenders == 0 || self.subscribers == 0
            || self.rate == 0 || self.parallel == 0 || self.max_inflight == 0
            || self.soak_cycles == 0 {
            return Err(error(join("--", name, " must be positive, got 0")));
        }
        if self.patch_size < 16 || self.patch_size > 8 * 1024 * 1024 {
            return Err(
                error(
                    pair(
                        "--patch-size must be 16..8388608, got ",
                        decimal_text(self.patch_size as u64).as_str(),
                    ),
                ),
            );
        }
        if self.logs.checked_mul(self.appenders).is_none() || self.logs.checked_mul(
            self.subscribers,
        ).is_none() {
            return Err(error(String::from_str("log/worker count overflow")));
        }
        let planned = match self.planned() {
            Ok(n) => n,
            Err(e) => return Err(e),
        };
        if planned > u64::MAX - 0x1_0000_0000 - 16 {
            return Err(error(String::from_str("workload exhausts protocol request ids")));
        }
        if planned == 0 {
            return Err(
                error(String::from_str("rate times duration must schedule at least one append")),
            );
        }
        Ok(())
    }

    /// How many appends the rate schedules over the duration.
    pub fn planned(&self) -> (r: Result<u64, Error>)
        ensures
            match r {
                Ok(n) => n == scheduled(*self),
                Err(e) => scheduled(*self) > u64::MAX && e.message@
                    == "rate times duration exceeds u64"@,
            },
    {
        assert(0 <= self.duration * self.rate <= 0xffff_ffff_ffff_ffff * 0xffff_ffff_ffff_ffff)
            by (nonlinear_arith)
            requires
                self.duration <= 0xffff_ffff_ffff_ffff,
                self.rate <= 0xffff_ffff_ffff_ffff,
        ;
        let n: u128 = self.duration as u128 * self.rate as u128 / 1_000_000_000;
        if n > u64::MAX as u128 {
            return Err(error(String::from_str("rate times duration exceeds u64")));
        }
        Ok(n as u64)
    }
}

// ---------------------------------------------------------------------
// What settings mean.

/// Settings go together exactly where they ask for at least one of everything
/// that a run needs, payloads have a size that can be sent, and at least one
/// append is scheduled and no more than there are request ids for. A smoke run has
/// one of everything, and is no soak.
pub proof fn settings_that_go_together(cfg: Config)
    ensures
        fault(cfg) is None <==> {
            &&& cfg.connections >= 1 && cfg.logs >= 1 && cfg.appenders >= 1 && cfg.subscribers >= 1
            &&& cfg.rate >= 1 && cfg.parallel >= 1 && cfg.max_inflight >= 1 && cfg.soak_cycles >= 1
            &&& 16 <= cfg.patch_size <= 8_388_608
            &&& cfg.logs * cfg.appenders <= usize::MAX
            &&& cfg.logs * cfg.subscribers <= usize::MAX
            &&& 1 <= scheduled(cfg) <= u64::MAX - 0x1_0000_0010
            &&& cfg.smoke ==> cfg.connections == 1 && cfg.logs == 1 && cfg.appenders == 1
                && cfg.subscribers == 1 && !cfg.soak
        },
{
}

/// As many appends are scheduled as the rate gives in the duration, the last of
/// them whole.
pub proof fn the_rate_schedules_appends(cfg: Config)
    ensures
        scheduled(cfg) * 1_000_000_000 <= cfg.rate * cfg.duration,
        cfg.rate * cfg.duration < (scheduled(cfg) + 1) * 1_000_000_000,
{
    assert(cfg.duration * cfg.rate == cfg.rate * cfg.duration && cfg.duration * cfg.rate >= 0)
        by (nonlinear_arith)
        requires
            cfg.rate >= 0,
            cfg.duration >= 0,
    ;
}

/// Without options a run has the settings that the help gives, and `--smoke`,
/// wherever it stands among the options, makes it a small one.
pub proof fn runs_start_as_the_help_says(args: Seq<String>, server: String, i: int)
    ensures
        ({
            let cfg = plain(server);
            &&& cfg.server == server && cfg.connections == 10_000 && cfg.logs == 1
            &&& cfg.appenders == 1 && cfg.subscribers == 1 && cfg.patch_size == 256
            &&& cfg.durability == Durability::Durable && cfg.rate == 1000
            &&& cfg.duration == 10 * 1_000_000_000 && cfg.transport == Transport::Unix
            &&& cfg.accepts == 1000 && cfg.parallel == 128 && cfg.max_inflight == 65536
            &&& cfg.timeout == 30 * 1_000_000_000 && cfg.soak_cycles == 10 && cfg.fd_slack == 0
            &&& !cfg.smoke && !cfg.soak && !cfg.json
            &&& scheduled(cfg) == 10_000 && fault(cfg) is None
        }),
        0 <= i < args.len() && args[i]@ == "--smoke"@ ==> {
            let cfg = starting(args, server);
            &&& cfg.smoke && cfg.connections == 1 && cfg.accepts == 4 && cfg.parallel == 1
            &&& scheduled(cfg) == 20 && fault(cfg) is None
            &&& cfg.server == server && cfg.durability == Durability::Durable && cfg.timeout == 30
                * 1_000_000_000
        },
        (forall|j: int| 0 <= j < args.len() ==> (#[trigger] args[j])@ != "--smoke"@) ==> starting(
            args,
            server,
        ) == plain(server),
{
}

/// The options that take a count, apart from each other.
proof fn lemma_counts_differ()
    ensures
        "--logs"@ != "--connections"@,
        "--appenders-per-log"@ != "--connections"@,
        "--appenders-per-log"@ != "--logs"@,
        "--subscribers-per-log"@ != "--connections"@,
        "--subscribers-per-log"@ != "--logs"@,
        "--subscribers-per-log"@ != "--appenders-per-log"@,
        "--patch-size"@ != "--connections"@,
        "--patch-size"@ != "--logs"@,
        "--patch-size"@ != "--appenders-per-log"@,
        "--patch-size"@ != "--subscribers-per-log"@,
        "--rate"@ != "--connections"@,
        "--rate"@ != "--logs"@,
        "--rate"@ != "--appenders-per-log"@,
        "--rate"@ != "--subscribers-per-log"@,
        "--rate"@ != "--patch-size"@,
        "--accepts"@ != "--connections"@,
        "--accepts"@ != "--logs"@,
        "--accepts"@ != "--appenders-per-log"@,
        "--accepts"@ != "--subscribers-per-log"@,
        "--accepts"@ != "--patch-size"@,
        "--accepts"@ != "--rate"@,
        "--parallel"@ != "--connections"@,
        "--parallel"@ != "--logs"@,
        "--parallel"@ != "--appenders-per-log"@,
        "--parallel"@ != "--subscribers-per-log"@,
        "--parallel"@ != "--patch-size"@,
        "--parallel"@ != "--rate"@,
        "--parallel"@ != "--accepts"@,
        "--max-inflight"@ != "--connections"@,
        "--max-inflight"@ != "--logs"@,
        "--max-inflight"@ != "--appenders-per-log"@,
        "--max-inflight"@ != "--subscribers-per-log"@,
        "--max-inflight"@ != "--patch-size"@,
        "--max-inflight"@ != "--rate"@,
        "--max-inflight"@ != "--accepts"@,
        "--max-inflight"@ != "--parallel"@,
        "--soak-cycles"@ != "--connections"@,
        "--soak-cycles"@ != "--logs"@,
        "--soak-cycles"@ != "--appenders-per-log"@,
        "--soak-cycles"@ != "--subscribers-per-log"@,
        "--soak-cycles"@ != "--patch-size"@,
        "--soak-cycles"@ != "--rate"@,
        "--soak-cycles"@ != "--accepts"@,
        "--soak-cycles"@ != "--parallel"@,
        "--soak-cycles"@ != "--max-inflight"@,
        "--fd-slack"@ != "--connections"@,
        "--fd-slack"@ != "--logs"@,
        "--fd-slack"@ != "--appenders-per-log"@,
        "--fd-slack"@ != "--subscribers-per-log"@,
        "--fd-slack"@ != "--patch-size"@,
        "--fd-slack"@ != "--rate"@,
        "--fd-slack"@ != "--accepts"@,
        "--fd-slack"@ != "--parallel"@,
        "--fd-slack"@ != "--max-inflight"@,
        "--fd-slack"@ != "--soak-cycles"@,
{
    reveal_strlit("--connections");
    reveal_strlit("--logs");
    reveal_strlit("--appenders-per-log");
    reveal_strlit("--subscribers-per-log");
    reveal_strlit("--patch-size");
    reveal_strlit("--rate");
    reveal_strlit("--accepts");
    reveal_strlit("--parallel");
    reveal_strlit("--max-inflight");
    reveal_strlit("--soak-cycles");
    reveal_strlit("--fd-slack");
    assert("--connections"@.len() == 13);
    assert("--logs"@.len() == 6);
    assert("--appenders-per-log"@.len() == 19);
    assert("--subscribers-per-log"@.len() == 21);
    assert("--patch-size"@.len() == 12);
    assert("--rate"@.len() == 6);
    assert("--accepts"@.len() == 9);
    assert("--parallel"@.len() == 10);
    assert("--max-inflight"@.len() == 14);
    assert("--soak-cycles"@.len() == 13);
    assert("--fd-slack"@.len() == 10);
    assert("--connections"@[2] == 'c' && "--logs"@[2] == 'l' && "--rate"@[2] == 'r');
    assert("--parallel"@[2] == 'p' && "--fd-slack"@[2] == 'f' && "--soak-cycles"@[2] == 's');
}

/// An option that takes a count sets what it is named after, and nothing else.
pub proof fn counts_set_what_they_are_named_after(cfg: Config, n: usize)
    ensures
        with_count(cfg, "--connections"@, n) == (Config { connections: n, ..cfg }),
        with_count(cfg, "--logs"@, n) == (Config { logs: n, ..cfg }),
        with_count(cfg, "--appenders-per-log"@, n) == (Config { appenders: n, ..cfg }),
        with_count(cfg, "--subscribers-per-log"@, n) == (Config { subscribers: n, ..cfg }),
        with_count(cfg, "--patch-size"@, n) == (Config { patch_size: n, ..cfg }),
        with_count(cfg, "--rate"@, n) == (Config { rate: n as u64, ..cfg }),
        with_count(cfg, "--accepts"@, n) == (Config { accepts: n, ..cfg }),
        with_count(cfg, "--parallel"@, n) == (Config { parallel: n, ..cfg }),
        with_count(cfg, "--max-inflight"@, n) == (Config { max_inflight: n, ..cfg }),
        with_count(cfg, "--soak-cycles"@, n) == (Config { soak_cycles: n, ..cfg }),
        with_count(cfg, "--fd-slack"@, n) == (Config { fd_slack: n, ..cfg }),
{
    lemma_counts_differ();
}

/// A count is read from its decimal numeral.
pub proof fn counts_are_read_back(n: usize)
    ensures
        count(crate::text::decimal(n as nat)) == Some(n),
{
    crate::text::numerals_read_back(n as nat, 10);
}

proof fn lemma_not_counts(flag: Seq<char>)
    requires
        flag == "--server"@ || flag == "--duration"@ || flag == "--timeout"@ || flag
            == "--transport"@ || flag == "--durability"@,
    ensures
        !takes_count(flag),
{
    reveal_strlit("--connections");
    reveal_strlit("--logs");
    reveal_strlit("--appenders-per-log");
    reveal_strlit("--subscribers-per-log");
    reveal_strlit("--patch-size");
    reveal_strlit("--rate");
    reveal_strlit("--accepts");
    reveal_strlit("--parallel");
    reveal_strlit("--max-inflight");
    reveal_strlit("--soak-cycles");
    reveal_strlit("--fd-slack");
    reveal_strlit("--server");
    reveal_strlit("--duration");
    reveal_strlit("--timeout");
    reveal_strlit("--transport");
    reveal_strlit("--durability");
    assert("--connections"@.len() == 13);
    assert("--logs"@.len() == 6);
    assert("--appenders-per-log"@.len() == 19);
    assert("--subscribers-per-log"@.len() == 21);
    assert("--patch-size"@.len() == 12);
    assert("--rate"@.len() == 6);
    assert("--accepts"@.len() == 9);
    assert("--parallel"@.len() == 10);
    assert("--max-inflight"@.len() == 14);
    assert("--soak-cycles"@.len() == 13);
    assert("--fd-slack"@.len() == 10);
    assert("--server"@.len() == 8);
    assert("--duration"@.len() == 10);
    assert("--timeout"@.len() == 9);
    assert("--transport"@.len() == 11);
    assert("--durability"@.len() == 12);
    assert("--parallel"@[2] == 'p' && "--fd-slack"@[2] == 'f' && "--accepts"@[2] == 'a');
    assert("--duration"@[2] == 'd' && "--timeout"@[2] == 't' && "--durability"@[2] == 'd');
    assert("--patch-size"@[2] == 'p');
}

/// The options that take something else than a count set what they are named
/// after, and nothing else: a span is taken to the nanosecond where it is some
/// time and a day at most, and a name has to be a known one.
pub proof fn options_set_what_they_are_named_after(cfg: Config, value: String, s: Seconds)
    ensures
        with_option(cfg, "--server"@, value, None) == Ok::<Config, Seq<char>>(
            Config { server: value, ..cfg },
        ),
        s.within_a_day() && s.nanos() > 0 ==> with_option(
            cfg,
            "--duration"@,
            value,
            Some(s),
        ) == Ok::<Config, Seq<char>>(Config { duration: s.nanos() as u64, ..cfg }) && with_option(
            cfg,
            "--timeout"@,
            value,
            Some(s),
        ) == Ok::<Config, Seq<char>>(Config { timeout: s.nanos() as u64, ..cfg }),
        !s.within_a_day() || s.nanos() == 0 ==> with_option(cfg, "--duration"@, value, Some(s))
            is Err && with_option(cfg, "--timeout"@, value, Some(s)) is Err,
        with_option(cfg, "--duration"@, value, None) is Err,
        with_option(cfg, "--timeout"@, value, None) is Err,
        value@ == "unix"@ ==> with_option(cfg, "--transport"@, value, None) == Ok::<
            Config,
            Seq<char>,
        >(Config { transport: Transport::Unix, ..cfg }),
        value@ == "http"@ ==> with_option(cfg, "--transport"@, value, None) == Ok::<
            Config,
            Seq<char>,
        >(Config { transport: Transport::Http, ..cfg }),
        value@ != "unix"@ && value@ != "http"@ ==> with_option(cfg, "--transport"@, value, None)
            is Err,
        value@ == "memory"@ ==> with_option(cfg, "--durability"@, value, None) == Ok::<
            Config,
            Seq<char>,
        >(Config { durability: Durability::Memory, ..cfg }),
        value@ == "written"@ ==> with_option(cfg, "--durability"@, value, None) == Ok::<
            Config,
            Seq<char>,
        >(Config { durability: Durability::Written, ..cfg }),
        value@ == "durable"@ ==> with_option(cfg, "--durability"@, value, None) == Ok::<
            Config,
            Seq<char>,
        >(Config { durability: Durability::Durable, ..cfg }),
        value@ != "memory"@ && value@ != "written"@ && value@ != "durable"@ ==> with_option(
            cfg,
            "--durability"@,
            value,
            None,
        ) is Err,
{
    lemma_not_counts("--server"@);
    lemma_not_counts("--duration"@);
    lemma_not_counts("--timeout"@);
    lemma_not_counts("--transport"@);
    lemma_not_counts("--durability"@);
    assert("--duration"@ != "--server"@ && "--timeout"@ != "--server"@ && "--transport"@
        != "--server"@ && "--durability"@ != "--server"@ && "--timeout"@ != "--duration"@
        && "--transport"@ != "--duration"@ && "--transport"@ != "--timeout"@ && "--durability"@
        != "--duration"@ && "--durability"@ != "--timeout"@ && "--durability"@ != "--transport"@)
        by {
        reveal_strlit("--server");
        reveal_strlit("--duration");
        reveal_strlit("--timeout");
        reveal_strlit("--transport");
        reveal_strlit("--durability");
        assert("--server"@.len() == 8);
        assert("--duration"@.len() == 10);
        assert("--timeout"@.len() == 9);
        assert("--transport"@.len() == 11);
        assert("--durability"@.len() == 12);
    }
    assert("http"@ != "unix"@) by {
        reveal_strlit("http");
        reveal_strlit("unix");
        assert("http"@[0] != "unix"@[0]);
    }
    assert("written"@ != "memory"@ && "durable"@ != "memory"@ && "durable"@ != "written"@) by {
        reveal_strlit("memory");
        reveal_strlit("written");
        reveal_strlit("durable");
        assert("written"@[0] != "durable"@[0]);
    }
}

proof fn lemma_later_options(
    first: Seq<String>,
    said: Seq<Option<Seconds>>,
    second: Seq<String>,
    then_said: Seq<Option<Seconds>>,
    cfg: Config,
    i: int,
)
    requires
        first.len() == said.len(),
        second.len() == then_said.len(),
        0 <= i <= second.len(),
    ensures
        options(first + second, said + then_said, cfg, first.len() + i) == options(
            second,
            then_said,
            cfg,
            i,
        ),
    decreases second.len() - i,
{
    let args = first + second;
    let seconds = said + then_said;
    if i < second.len() {
        assert(args[first.len() + i] == second[i]);
        if second[i]@ == "--smoke"@ {
            lemma_later_options(
                first,
                said,
                second,
                then_said,
                Config { smoke: true, ..cfg },
                i + 1,
            );
        } else if second[i]@ == "--soak"@ {
            lemma_later_options(
                first,
                said,
                second,
                then_said,
                Config { soak: true, ..cfg },
                i + 1,
            );
        } else if second[i]@ == "--json"@ {
            lemma_later_options(
                first,
                said,
                second,
                then_said,
                Config { json: true, ..cfg },
                i + 1,
            );
        } else if i + 1 < second.len() {
            assert(args[first.len() + i + 1] == second[i + 1]);
            assert(seconds[first.len() + i + 1] == then_said[i + 1]);
            if second[i]@ != "--"@ {
                if let Ok(next) = with_option(cfg, second[i]@, second[i + 1], then_said[i + 1]) {
                    lemma_later_options(first, said, second, then_said, next, i + 2);
                }
            }
        }
    }
}

proof fn lemma_earlier_options(
    first: Seq<String>,
    said: Seq<Option<Seconds>>,
    second: Seq<String>,
    then_said: Seq<Option<Seconds>>,
    cfg: Config,
    i: int,
)
    requires
        first.len() == said.len(),
        second.len() == then_said.len(),
        0 <= i <= first.len(),
        forall|j: int| 0 <= j < first.len() ==> (#[trigger] first[j])@ != "--"@,
        options(first, said, cfg, i) is Ok,
    ensures
        options(first + second, said + then_said, cfg, i) == options(
            second,
            then_said,
            options(first, said, cfg, i)->Ok_0,
            0,
        ),
    decreases first.len() - i,
{
    let args = first + second;
    let seconds = said + then_said;
    if i == first.len() {
        lemma_later_options(first, said, second, then_said, cfg, 0);
    } else {
        assert(args[i] == first[i]);
        if first[i]@ == "--smoke"@ {
            lemma_earlier_options(
                first,
                said,
                second,
                then_said,
                Config { smoke: true, ..cfg },
                i + 1,
            );
        } else if first[i]@ == "--soak"@ {
            lemma_earlier_options(
                first,
                said,
                second,
                then_said,
                Config { soak: true, ..cfg },
                i + 1,
            );
        } else if first[i]@ == "--json"@ {
            lemma_earlier_options(
                first,
                said,
                second,
                then_said,
                Config { json: true, ..cfg },
                i + 1,
            );
        } else {
            assert(args[i + 1] == first[i + 1]);
            assert(seconds[i + 1] == said[i + 1]);
            let next = with_option(cfg, first[i]@, first[i + 1], said[i + 1])->Ok_0;
            lemma_earlier_options(first, said, second, then_said, next, i + 2);
        }
    }
}

/// Options are taken from left to right, each on top of those before it: those of
/// two command lines in a row come to what the second makes of what the first
/// left, so the last word on a setting counts. Flags set what they name, an option
/// without its value is an error, and so is anything behind `--`.
pub proof fn options_are_taken_from_left_to_right(
    first: Seq<String>,
    said: Seq<Option<Seconds>>,
    second: Seq<String>,
    then_said: Seq<Option<Seconds>>,
    cfg: Config,
)
    requires
        first.len() == said.len(),
        second.len() == then_said.len(),
        forall|j: int| 0 <= j < first.len() ==> (#[trigger] first[j])@ != "--"@,
    ensures
        options(first, said, cfg, 0) is Ok ==> options(first + second, said + then_said, cfg, 0)
            == options(second, then_said, options(first, said, cfg, 0)->Ok_0, 0),
        second.len() == 0 ==> options(second, then_said, cfg, 0) == Ok::<Config, Seq<char>>(cfg),
        second.len() == 1 && second[0]@ == "--soak"@ ==> options(second, then_said, cfg, 0) == Ok::<
            Config,
            Seq<char>,
        >(Config { soak: true, ..cfg }),
        second.len() == 1 && second[0]@ == "--json"@ ==> options(second, then_said, cfg, 0) == Ok::<
            Config,
            Seq<char>,
        >(Config { json: true, ..cfg }),
        second.len() == 1 && second[0]@ == "--smoke"@ ==> options(
            second,
            then_said,
            cfg,
            0,
        ) == Ok::<Config, Seq<char>>(Config { smoke: true, ..cfg }),
        second.len() == 1 && (takes_count(second[0]@) || second[0]@ == "--server"@) ==> options(
            second,
            then_said,
            cfg,
            0,
        ) is Err,
        second.len() >= 2 && second[0]@ == "--"@ ==> options(second, then_said, cfg, 0) is Err,
{
    if options(first, said, cfg, 0) is Ok {
        lemma_earlier_options(first, said, second, then_said, cfg, 0);
    }
    reveal_with_fuel(options, 2);
    reveal_strlit("--");
    reveal_strlit("--soak");
    reveal_strlit("--json");
    reveal_strlit("--smoke");
    assert("--soak"@[2] == 's' && "--json"@[2] == 'j');
    reveal_strlit("--connections");
    reveal_strlit("--logs");
    reveal_strlit("--appenders-per-log");
    reveal_strlit("--subscribers-per-log");
    reveal_strlit("--patch-size");
    reveal_strlit("--rate");
    reveal_strlit("--accepts");
    reveal_strlit("--parallel");
    reveal_strlit("--max-inflight");
    reveal_strlit("--soak-cycles");
    reveal_strlit("--fd-slack");
    reveal_strlit("--server");
    assert("--logs"@[2] == 'l' && "--rate"@[2] == 'r');
}

} // verus!
