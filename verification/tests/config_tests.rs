use ipc_bench::config::{
    measurement_batch_size, workload_supported, BenchmarkConfig, OutputFormat, ProcessRole,
};

fn owned(words: &[&str]) -> Vec<String> {
    words.iter().map(|w| w.to_string()).collect()
}

#[test]
fn parses_short_and_long_flags() {
    let config = BenchmarkConfig::from_args(
        "ipc-bench",
        vec![
            "-c".to_owned(),
            "25".to_owned(),
            "--message-size".to_owned(),
            "512".to_owned(),
            "-w".to_owned(),
            "5".to_owned(),
            "--trials".to_owned(),
            "2".to_owned(),
            "--format".to_owned(),
            "json".to_owned(),
            "--role".to_owned(),
            "child".to_owned(),
        ],
    )
    .expect("config should parse");

    assert_eq!(config.message_count, 25);
    assert_eq!(config.message_size, 512);
    assert_eq!(config.warmup_count, 5);
    assert_eq!(config.trials, 2);
    assert_eq!(config.output_format, OutputFormat::Json);
    assert_eq!(config.role, ProcessRole::Child);
}

#[test]
fn child_args_preserve_parent_configuration() {
    let config = BenchmarkConfig {
        message_count: 7,
        message_size: 128,
        warmup_count: 2,
        trials: 4,
        output_format: OutputFormat::Json,
        role: ProcessRole::Parent,
        ..BenchmarkConfig::default()
    };

    let child = BenchmarkConfig::from_args("ipc-bench", config.child_args())
        .expect("child args should round-trip");

    assert_eq!(child.message_count, 7);
    assert_eq!(child.message_size, 128);
    assert_eq!(child.warmup_count, 2);
    assert_eq!(child.trials, 4);
    assert_eq!(child.output_format, OutputFormat::Json);
    assert_eq!(child.role, ProcessRole::Child);
}

#[test]
fn rejects_zero_message_count() {
    let error = BenchmarkConfig::from_args("ipc-bench", owned(&["--message-count", "0"]))
        .expect_err("zero message count should fail");

    assert!(error.contains("message count"));
}

#[test]
fn rejects_invalid_bounds_before_allocation() {
    for args in [
        vec!["--message-size", "0"],
        vec!["--message-size", "18446744073709551615"],
        vec!["--message-count", "18446744073709551615", "--trials", "2"],
        vec!["--trials", "0"],
        vec!["--timeout-seconds", "0"],
        vec!["--ring-capacity", "3"],
        vec!["--queue-depth", "0"],
    ] {
        assert!(BenchmarkConfig::from_args("ipc-bench", owned(&args)).is_err());
    }
}

#[test]
fn no_arguments_give_the_defaults() {
    let config = BenchmarkConfig::from_args("ipc-bench", Vec::new()).unwrap();
    assert_eq!(config, BenchmarkConfig::default());
    assert_eq!(config.message_count, 1000);
    assert_eq!(config.message_size, 1000);
    assert_eq!(config.warmup_count, 100);
    assert_eq!(config.trials, 3);
    assert_eq!(config.output_format, OutputFormat::Text);
    assert_eq!(config.role, ProcessRole::Parent);
    assert_eq!(config.validation, "full");
    assert_eq!(config.measurement, "batch");
    assert_eq!(config.timeout_seconds, 120);
    assert_eq!(config.workload, "round-trip");
    assert_eq!(config.queue_depth, 1);
    assert_eq!(config.ring_capacity, 64);
}

#[test]
fn every_flag_round_trips_through_worker_arguments() {
    let config = BenchmarkConfig::from_args(
        "ipc-bench",
        owned(&[
            "--workload",
            "windowed",
            "--queue-depth",
            "16",
            "--ring-capacity",
            "128",
            "--measurement",
            "latency",
            "--timeout-seconds",
            "30",
            "-s",
            "64",
            "-t",
            "1",
        ]),
    )
    .unwrap();
    let parent_args = config.args_for_role(ProcessRole::Parent);
    assert_eq!(parent_args.len(), 24);
    assert_eq!(parent_args[0], "--workload");
    assert_eq!(parent_args[1], "windowed");
    assert_eq!(parent_args[23], "parent");
    let again = BenchmarkConfig::from_args("ipc-bench", parent_args).unwrap();
    assert_eq!(again, config);
    let child = BenchmarkConfig::from_args("ipc-bench", config.child_args()).unwrap();
    assert_eq!(child, BenchmarkConfig { role: ProcessRole::Child, ..config });
}

#[test]
fn reports_each_kind_of_argument_error() {
    let err = |words: &[&str]| BenchmarkConfig::from_args("ipc-bench", owned(words)).unwrap_err();
    assert_eq!(err(&["--trials"]), "missing value for --trials");
    assert_eq!(err(&["--format"]), "missing value for --format");
    assert_eq!(err(&["--role"]), "missing value for --role");
    assert_eq!(err(&["--workload"]), "missing value for --workload");
    assert_eq!(err(&["-c", "ten"]), "invalid message count `ten`");
    assert_eq!(err(&["--queue-depth", "-1"]), "invalid queue depth `-1`");
    assert_eq!(err(&["--validation", "none"]), "invalid value `none` for --validation");
    assert_eq!(
        err(&["--format", "xml"]),
        "invalid output format `xml`; expected `text` or `json`"
    );
    assert_eq!(
        err(&["--role", "worker"]),
        "invalid process role `worker`; expected `parent` or `child`"
    );
    let unknown = err(&["--bogus"]);
    assert!(unknown.starts_with("unrecognized argument `--bogus`\n\nUsage: ipc-bench [options]"));
    assert_eq!(err(&["-h"]), BenchmarkConfig::usage("ipc-bench"));
    assert_eq!(err(&["--help"]), BenchmarkConfig::usage("ipc-bench"));
}

#[test]
fn reports_each_validation_error() {
    let err = |words: &[&str]| BenchmarkConfig::from_args("ipc-bench", owned(words)).unwrap_err();
    assert_eq!(
        err(&["-s", "1048577"]),
        "message size must be between 1 and 1048576 payload bytes"
    );
    assert_eq!(err(&["--timeout-seconds", "86401"]), "timeout must be between 1 and 86400 seconds");
    assert_eq!(
        err(&["--queue-depth", "257"]),
        "queue depth must be 1..256; ring capacity must be a power of two in 1..256"
    );
    assert_eq!(
        err(&["--ring-capacity", "512"]),
        "queue depth must be 1..256; ring capacity must be a power of two in 1..256"
    );
    assert_eq!(err(&["--queue-depth", "2"]), "round-trip workload requires queue depth one");
    assert_eq!(
        err(&["--workload", "streaming", "--validation", "sampled"]),
        "throughput workloads require full delivery validation"
    );
    assert_eq!(
        err(&["-c", "500000000", "-t", "2", "-w", "1"]),
        "total operation count exceeds 1000000000"
    );
    assert_eq!(err(&["-c", "0"]), "message count must be greater than zero");
    assert_eq!(
        err(&["-c", "1000001", "--measurement", "latency"]),
        "retained measurement samples exceed 1000000; reduce count/trials or use batches"
    );
    assert_eq!(err(&["-t", "0"]), "trials must be greater than zero");
    // At the limits the same settings are accepted.
    assert!(BenchmarkConfig::from_args("ipc-bench", owned(&["-s", "1048576"])).is_ok());
    assert!(BenchmarkConfig::from_args("ipc-bench", owned(&["-c", "1", "-t", "1", "-w", "999999999"])).is_ok());
    assert_eq!(err(&["-c", "1", "-t", "1", "-w", "1000000000"]), "total operation count exceeds 1000000000");
    assert_eq!(
        err(&["-c", "500000000", "-t", "2", "-w", "0"]),
        "retained measurement samples exceed 1000000; reduce count/trials or use batches"
    );
    assert!(BenchmarkConfig::from_args(
        "ipc-bench",
        owned(&["-c", "1000000", "--measurement", "latency", "-t", "1"])
    )
    .is_ok());
}

#[test]
fn later_flags_override_earlier_ones() {
    let config =
        BenchmarkConfig::from_args("ipc-bench", owned(&["-c", "5", "--message-count", "+9"])).unwrap();
    assert_eq!(config.message_count, 9);
}

#[test]
fn wire_size_adds_the_sequence_header() {
    let config = BenchmarkConfig { message_size: 1, ..BenchmarkConfig::default() };
    assert_eq!(config.wire_size(), 9);
    assert_eq!(BenchmarkConfig::default().wire_size(), 1008);
}

#[test]
fn usage_names_the_program() {
    let text = BenchmarkConfig::usage("shm-ring-spin");
    assert!(text.starts_with("Usage: shm-ring-spin [options]\n\nOptions:\n"));
    assert!(text.ends_with("Power-of-two slots per direction, 1..256"));
    assert_eq!(text.lines().count(), 15);
}

#[test]
fn batch_size_is_one_percent_clamped() {
    assert_eq!(measurement_batch_size(0), 1);
    assert_eq!(measurement_batch_size(1), 1);
    assert_eq!(measurement_batch_size(100), 1);
    assert_eq!(measurement_batch_size(101), 2);
    assert_eq!(measurement_batch_size(205), 3);
    assert_eq!(measurement_batch_size(10_000), 100);
    assert_eq!(measurement_batch_size(usize::MAX), 100);
}

#[test]
fn throughput_workloads_need_a_ring_or_the_completion_port_pipe() {
    assert!(workload_supported("round-trip", "anon-pipe"));
    assert!(workload_supported("streaming", "shm-ring-spin"));
    assert!(workload_supported("windowed", "shm-ring-hybrid"));
    assert!(workload_supported("windowed", "named-pipe-iocp"));
    assert!(!workload_supported("windowed", "named-pipe-iocp-2"));
    assert!(!workload_supported("streaming", "shm-ring"));
    assert!(!workload_supported("streaming", "anon-pipe"));
}
