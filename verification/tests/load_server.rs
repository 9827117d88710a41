//! The server under load, the benchmark and its report.

use lug::load::bench::{
    epoch_message, exit_code, log_names, mode, skip_reason, Bench, EpochReport, Job, Outcome,
};
use lug::load::config::Config;
use lug::load::report::{
    epoch_rows, latency_rows, measured_rows, report, smoke_report, EpochValues, Quantiles,
};
use lug::load::server::{
    directory_name, hex_text, killed, not_ready, ready, restless, rss, settings, Limits,
    Quiescence,
};
use lug::proto::Durability;

#[test]
fn settings_read_back() {
    let text = settings("/tmp/a \"b\"/data", "/run", None).unwrap();
    let table: toml::Table = toml::from_str(&text).unwrap();
    assert_eq!(table["data"].as_str(), Some("/tmp/a \"b\"/data"));
    assert_eq!(table["run"].as_str(), Some("/run"));
    assert_eq!(table["socket"].as_str(), Some("lug.sock"));
    assert_eq!(table["ring"].as_integer(), Some(4096));
    assert_eq!(table["checkpoint_every"].as_integer(), Some(i64::MAX));
    assert!(table.get("http").is_none());
    let text = settings("d", "r", Some(("127.0.0.1:0", "/token"))).unwrap();
    let table: toml::Table = toml::from_str(&text).unwrap();
    assert_eq!(table["http"].as_str(), Some("127.0.0.1:0"));
    assert_eq!(table["token"].as_str(), Some("/token"));
}

#[test]
fn names_and_notices() {
    assert_eq!(hex_text(&[0, 0x1f, 0xff]), "001fff");
    assert_eq!(directory_name(12, &[0xab]), "lug-load-12-ab");
    assert_eq!(
        Limits { before: 1024, soft: 4096, hard: 8192 }.message(),
        "RLIMIT_NOFILE soft 1024 -> 4096, hard 8192 (child inherits it)"
    );
    assert_eq!(
        not_ready("/run/lug.sock", 30_000_000_000).message,
        "server socket /run/lug.sock did not become ready within 30s"
    );
    assert_eq!(restless(7).message, "server 7 fds never quiesced");
    assert_eq!(log_names(2, 2).len(), 2);
    assert_ne!(log_names(2, 2)[0], log_names(2, 2)[1]);
    assert_ne!(log_names(2, 2)[0], log_names(3, 2)[0]);
}

#[test]
fn a_server_is_ready_when_it_listens_everywhere() {
    assert!(ready(None, true, None).unwrap());
    assert!(ready(None, true, Some(true)).unwrap());
    assert!(!ready(None, true, Some(false)).unwrap());
    assert!(!ready(None, false, None).unwrap());
    let failure = ready(Some("exit status: 1"), true, None).unwrap_err();
    assert_eq!(failure.message, "server exited during startup with exit status: 1");
    assert!(killed(Some(9), "signal: 9").is_ok());
    assert_eq!(
        killed(Some(15), "signal: 15").unwrap_err().message,
        "crash expected SIGKILL, got signal: 15"
    );
    assert!(killed(None, "exit status: 0").is_err());
}

#[test]
fn memory_is_read_off_the_status_file() {
    let status = "Name:\tlug\nVmPeak:\t  900 kB\nVmRSS:\t  123 kB\nThreads:\t1\n";
    assert_eq!(rss(4, status).unwrap(), 123 * 1024);
    assert_eq!(rss(4, "Name:\tlug\n").unwrap_err().message, "/proc/4/status omitted VmRSS");
    assert_eq!(rss(4, "VmRSS: x kB").unwrap_err().message, "invalid digit found in string");
    assert_eq!(
        rss(4, "VmRSS: 18446744073709551615 kB").unwrap_err().message,
        "VmRSS is out of range"
    );
}

#[test]
fn rest_takes_five_equal_counts() {
    let mut rest = Quiescence::new();
    for _ in 0..4 {
        assert!(!rest.sample(9));
    }
    assert!(!rest.sample(8));
    for _ in 0..3 {
        assert!(!rest.sample(8));
    }
    assert!(rest.sample(8));
}

/// Take a benchmark through, and list what it had done.
fn jobs(cfg: &Config) -> (Vec<Job>, Bench) {
    let mut bench = Bench::new(cfg);
    let mut jobs = Vec::new();
    loop {
        let job = bench.job();
        let outcome = match job {
            Job::Nothing => return (jobs, bench),
            Job::Quiesce | Job::Settle => Outcome::Rest { fds: 20, rss: 1000 },
            Job::Accepts => Outcome::Accepted { count: 64, elapsed: 5 },
            Job::Open => Outcome::Opened { elapsed: 7, rss: 2000 },
            _ => Outcome::Done,
        };
        jobs.push(job);
        bench.done(cfg, outcome).unwrap();
    }
}

#[test]
fn a_load_is_one_epoch_with_a_crash_and_a_replay() {
    let cfg = Config::default();
    let (done, bench) = jobs(&cfg);
    assert_eq!(
        done,
        vec![
            Job::Quiesce,
            Job::Isolation,
            Job::Accepts,
            Job::Setup,
            Job::Quiesce,
            Job::Open,
            Job::Load,
            Job::Cancel,
            Job::Heartbeat,
            Job::Settle,
            Job::Crash,
            Job::Replay,
        ]
    );
    assert_eq!((bench.cold_rss, bench.accepts, bench.accept_elapsed), (1000, 64, 5));
    let report = &bench.reports[0];
    assert_eq!((report.warm_rss, report.held_rss, report.establishment), (1000, 2000, 7));
    assert!(report.replayed && !report.fd_checked);
}

#[test]
fn a_soak_repeats_and_churns() {
    let cfg = Config {
        soak: true,
        soak_cycles: 3,
        durability: Durability::Written,
        ..Config::default()
    };
    let (done, bench) = jobs(&cfg);
    assert_eq!(bench.reports.len(), 3);
    assert_eq!(done.iter().filter(|j| **j == Job::Churn).count(), 12);
    assert_eq!(done.iter().filter(|j| **j == Job::Crash).count(), 3);
    assert!(!done.contains(&Job::Replay));
    assert!(bench.reports[2].fd_checked);
    assert_eq!(bench.reports[2].epoch, 2);
}

#[test]
fn a_leak_ends_a_soak() {
    let cfg = Config { soak: true, ..Config::default() };
    let mut bench = Bench::new(&cfg);
    let mut fds = 20;
    loop {
        let outcome = match bench.job() {
            Job::Settle => Outcome::Rest { fds, rss: 1 },
            Job::Quiesce => Outcome::Rest { fds, rss: 1 },
            Job::Accepts => Outcome::Accepted { count: 1, elapsed: 1 },
            Job::Open => Outcome::Opened { elapsed: 1, rss: 1 },
            Job::Churn => {
                fds += 1;
                Outcome::Done
            }
            _ => Outcome::Done,
        };
        if let Err(e) = bench.done(&cfg, outcome) {
            assert_eq!(
                e.message,
                "FD LEAK: quiescent server fds grew from 20 to 21, allowed slack 0"
            );
            return;
        }
        assert_ne!(bench.job(), Job::Crash);
    }
}

#[test]
fn modes_and_exit_codes() {
    let cfg = Config::default();
    assert_eq!(mode(&cfg), "load");
    assert_eq!(mode(&Config { soak: true, ..Config::default() }), "soak");
    assert_eq!(mode(&Config { smoke: true, ..Config::default() }), "smoke");
    assert_eq!(exit_code("interrupted by SIGINT"), 130);
    assert_eq!(exit_code("interrupted by SIGTERM"), 143);
    assert_eq!(exit_code("anything else"), 1);
    assert_eq!(
        skip_reason("/bin/absent"),
        "server executable /bin/absent is missing; no load or conformance measurements were made"
    );
    let report = EpochReport {
        epoch: 0,
        held_connections: 4,
        held_sockets: 4,
        establishment: 0,
        warm_rss: 0,
        held_rss: 0,
        fd_checked: false,
        fd_baseline: 20,
        fd_after: 21,
        replayed: true,
    };
    assert_eq!(
        epoch_message(&report),
        "epoch 0: PASS exact delivery to every subscriber and durable replay after SIGKILL"
    );
}

#[test]
fn reports_have_a_line_for_everything() {
    assert_eq!(lug::load::report::line("metric", "value"), format!("{:<48} value", "metric"));
    let values = EpochValues {
        epoch: "0".to_string(),
        rows: epoch_rows().iter().map(|(_, key)| key.to_string()).collect(),
        measured: measured_rows().iter().map(|(_, key)| key.to_string()).collect(),
        latencies: latency_rows()
            .iter()
            .map(|_| Quantiles {
                p50: "1".to_string(),
                p99: "2".to_string(),
                p999: "3".to_string(),
            })
            .collect(),
    };
    let lines = report("passed", "12", "34", &vec![values]);
    let count = epoch_rows().len() + measured_rows().len() + latency_rows().len();
    assert_eq!(lines.len(), 4 + 1 + count + 1);
    assert_eq!(lines[1], format!("{:<48} passed", "status"));
    assert!(lines[lines.len() - 2].ends_with("p50=1 p99=2 p999=3"));
    assert!(lines.last().unwrap().ends_with("passed"));
    let smoke = smoke_report("20", "20", "1", "2");
    assert!(smoke.iter().any(|l| l.contains("20")));
}
