use ipc_bench::config::BenchmarkConfig;
use ipc_bench::report::{
    batch_plan, byte_count_direction, phase_validates_fully, Phase, delivered_payload_bytes, record_delivery_latency,
    record_signal, record_wait, report_batch_size, round_trip_workload_label, sampling_unit_label,
    timed_operation_count, validation_policy_label, SyncCounts, LATENCY_SAMPLE_LIMIT,
};

#[test]
fn batch_plan_retains_uneven_final_batch() {
    let plan = batch_plan(205, false);
    assert_eq!(plan.len(), 69);
    assert_eq!(*plan.last().unwrap(), 1);
    assert!(plan[..68].iter().all(|ops| *ops == 3));
    assert_eq!(plan.iter().sum::<usize>(), 205);
}

#[test]
fn latency_plan_times_every_operation() {
    let plan = batch_plan(7, true);
    assert_eq!(plan, vec![1; 7]);
    assert!(batch_plan(0, false).is_empty());
    assert!(batch_plan(0, true).is_empty());
    let large = batch_plan(1_000_000, false);
    assert_eq!(large.len(), 10_000);
    assert!(large.iter().all(|ops| *ops == 100));
}

#[test]
fn report_labels() {
    let full = BenchmarkConfig::default();
    let sampled = BenchmarkConfig { validation: "sampled".into(), ..BenchmarkConfig::default() };
    assert_eq!(round_trip_workload_label("placeholder"), "harness-overhead");
    assert_eq!(round_trip_workload_label("anon-pipe"), "round-trip");
    assert_eq!(validation_policy_label("placeholder", &full), "none");
    assert_eq!(validation_policy_label("anon-pipe", &full), "full-payload-every-operation");
    assert_eq!(
        validation_policy_label("anon-pipe", &sampled),
        "sequence-every-operation;full-every-1024;full-preflight-and-final;full-last-batch-each-trial"
    );
    let latency = BenchmarkConfig { measurement: "latency".into(), ..BenchmarkConfig::default() };
    assert_eq!(sampling_unit_label(&full), "batch-average-round-trip");
    assert_eq!(sampling_unit_label(&latency), "individual-round-trip");
    assert_eq!(report_batch_size(&full), 10);
    assert_eq!(report_batch_size(&latency), 1);
    let streaming = BenchmarkConfig { workload: "streaming".into(), ..BenchmarkConfig::default() };
    let windowed = BenchmarkConfig { workload: "windowed".into(), ..BenchmarkConfig::default() };
    assert_eq!(byte_count_direction(&streaming), "requests");
    assert_eq!(byte_count_direction(&windowed), "responses");
}

#[test]
fn operation_and_byte_counts() {
    let config = BenchmarkConfig { message_count: 250, trials: 4, message_size: 64, ..BenchmarkConfig::default() };
    assert_eq!(timed_operation_count(&config), 1000);
    assert_eq!(delivered_payload_bytes(&config), Some(16_000));
    let huge = BenchmarkConfig { message_count: usize::MAX, message_size: 2, ..BenchmarkConfig::default() };
    assert_eq!(delivered_payload_bytes(&huge), None);
}

#[test]
fn latency_samples_stop_at_the_limit() {
    let mut samples: Vec<u32> = Vec::new();
    record_delivery_latency(&mut samples, None);
    assert!(samples.is_empty());
    for k in 0..(LATENCY_SAMPLE_LIMIT as u32 + 10) {
        record_delivery_latency(&mut samples, Some(k));
    }
    assert_eq!(samples.len(), 65_536);
    assert_eq!(samples[0], 0);
    assert_eq!(*samples.last().unwrap(), 65_535);
}

#[test]
fn sync_counters_count_separately() {
    let mut counts = SyncCounts { signals: 0, waits: 0 };
    record_signal(&mut counts);
    record_signal(&mut counts);
    record_wait(&mut counts);
    assert_eq!(counts, SyncCounts { signals: 2, waits: 1 });
}

#[test]
fn sampled_validation_still_checks_edges_fully() {
    for phase in [Phase::Preflight, Phase::Warmup, Phase::Final] {
        assert!(phase_validates_fully(false, phase));
        assert!(phase_validates_fully(true, phase));
    }
    assert!(!phase_validates_fully(false, Phase::Timed { index: 0, batches: 69 }));
    assert!(!phase_validates_fully(false, Phase::Timed { index: 67, batches: 69 }));
    assert!(phase_validates_fully(false, Phase::Timed { index: 68, batches: 69 }));
    assert!(phase_validates_fully(true, Phase::Timed { index: 0, batches: 69 }));
    assert!(!phase_validates_fully(false, Phase::Timed { index: usize::MAX, batches: 0 }));
}
