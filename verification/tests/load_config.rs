//! The command line of a load run.

use lug::load::config::{Config, Transport};
use lug::load::error::Error;
use lug::load::seconds::{Seconds, DAY};
use lug::proto::Durability;

/// What a text says as a number of seconds.
fn seconds(text: &str) -> Option<Seconds> {
    let value: f64 = text.parse().ok()?;
    Some(Seconds { bits: value.to_bits() })
}

fn parse(s: &str) -> Result<Config, Error> {
    let args: Vec<String> = s.split_whitespace().map(str::to_owned).collect();
    let readings = args.iter().map(|a| seconds(a)).collect();
    Config::parse(&args, &readings, "lug-server".to_string())
}

fn refusal(s: &str) -> String {
    parse(s).unwrap_err().message
}

#[test]
fn reject_invalid_workloads() {
    for args in [
        "--rate 0",
        "--duration NaN",
        "--duration 0.00000000001",
        "--logs 0",
        "--transport udp",
        "--patch-size 8",
        "--max-inflight 0",
        "--typo 1",
    ] {
        assert!(parse(args).is_err(), "{args}");
    }
}

#[test]
fn smoke_is_small_and_distinct_from_soak() {
    let cfg = parse("--smoke").unwrap();
    assert_eq!(cfg.connections, 1);
    assert_eq!(cfg.logs * cfg.appenders * cfg.subscribers, 1);
    assert_eq!(cfg.planned().unwrap(), 20);
    assert!(parse("--smoke --soak").is_err());
}

#[test]
fn fractional_window_has_exact_schedule_count() {
    assert_eq!(
        parse("--rate 10 --duration 0.25")
            .unwrap()
            .planned()
            .unwrap(),
        2
    );
    assert_eq!(Config::default().connections, 10_000);
}

#[test]
fn every_setting_is_read() {
    let cfg = parse(
        "--server /bin/lug --connections 2 --logs 3 --appenders-per-log 4 \
         --subscribers-per-log 5 --patch-size 64 --durability memory --rate 7 --duration 1.5 \
         --transport http --accepts 8 --parallel 9 --max-inflight 10 --timeout 2 --soak \
         --soak-cycles 11 --fd-slack 12 --json",
    )
    .unwrap();
    assert_eq!(cfg.server, "/bin/lug");
    assert_eq!((cfg.connections, cfg.logs, cfg.appenders, cfg.subscribers), (2, 3, 4, 5));
    assert_eq!(cfg.patch_size, 64);
    assert_eq!(cfg.durability, Durability::Memory);
    assert_eq!((cfg.rate, cfg.duration), (7, 1_500_000_000));
    assert_eq!(cfg.transport, Transport::Http);
    assert_eq!((cfg.accepts, cfg.parallel, cfg.max_inflight), (8, 9, 10));
    assert_eq!(cfg.timeout, 2_000_000_000);
    assert!(cfg.soak && cfg.json && !cfg.smoke);
    assert_eq!((cfg.soak_cycles, cfg.fd_slack), (11, 12));
}

#[test]
fn refusals_say_which_setting() {
    assert_eq!(refusal("--rate 0"), "--rate must be positive, got 0");
    assert_eq!(refusal("--rate"), "missing value for --rate");
    assert_eq!(refusal("--transport udp"), "invalid transport \"udp\"");
    assert_eq!(refusal("--durability paper"), "invalid durability \"paper\"");
    assert_eq!(
        refusal("--duration 0.00000000001"),
        "--duration is below clock resolution: 0.00000000001"
    );
    assert!(refusal("--logs x").starts_with("invalid --logs: \"x\""));
    assert_eq!(refusal("--typo 1"), "unknown option \"--typo\"");
    assert_eq!(refusal("--patch-size 8"), "--patch-size must be 16..8388608, got 8");
    assert_eq!(refusal("--smoke --soak"), "--smoke and --soak are separate modes");
    assert_eq!(
        refusal("--smoke --connections 2"),
        "--smoke requires one connection, log, appender and subscriber; omit it for a load run"
    );
    assert_eq!(
        refusal("--duration 0.0001 --rate 1"),
        "rate times duration must schedule at least one append"
    );
    assert_eq!(
        refusal("--rate 18446744073709551615 --duration 2"),
        "rate times duration exceeds u64"
    );
    assert_eq!(
        refusal("--rate 18446744073709551615 --duration 1"),
        "workload exhausts protocol request ids"
    );
    assert_eq!(
        refusal("--logs 18446744073709551615 --appenders-per-log 2"),
        "log/worker count overflow"
    );
}

#[test]
fn seconds_are_rounded_to_the_nearest_nanosecond() {
    for (text, nanos) in [
        ("1", 1_000_000_000),
        ("0.1", 100_000_000),
        ("2.7", 2_700_000_000),
        ("0.0000000006", 1),
        ("0.0000000004", 0),
        ("1e-300", 0),
        ("5e-324", 0),
        ("86400", DAY),
        ("86399.9999999999", DAY),
        // Halfway between two, the even one is taken.
        ("0.0009765625", 976_562),
        ("0.0029296875", 2_929_688),
    ] {
        assert_eq!(seconds(text).unwrap().span(), nanos, "{text}");
    }
}

#[test]
fn seconds_are_what_a_duration_makes_of_them() {
    let mut value: f64 = 1e-12;
    while value <= 86_400.0 {
        let expected = std::time::Duration::from_secs_f64(value).as_nanos() as u64;
        assert_eq!(Seconds { bits: value.to_bits() }.span(), expected, "{value:?}");
        value *= 1.000_37;
    }
}

#[test]
fn windows_are_a_day_at_most() {
    let cfg = parse("--rate 1 --duration 86400 --timeout 86400").unwrap();
    assert_eq!((cfg.duration, cfg.timeout), (DAY, DAY));
    assert_eq!(
        refusal("--timeout 86400.00000000001"),
        "--timeout must be in (0, 86400], got 86400.00000000001"
    );
    assert_eq!(refusal("--timeout inf"), "--timeout must be in (0, 86400], got inf");
    assert_eq!(refusal("--timeout -0"), "--timeout must be in (0, 86400], got -0");
}
