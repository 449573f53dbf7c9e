//! What a benchmark run reports besides its timings: how a trial is cut into timed
//! batches, the labels that name its workload and validation policy, its operation
//! and byte counts, and the bounded retention of latency samples.
use vstd::prelude::*;

use crate::config::{batch_size_spec, measurement_batch_size, BenchmarkConfig, ConfigModel};
use crate::text::str_eq;

verus! {

broadcast use vstd::string::group_string_axioms;

/// Operations per batch for `remaining` operations in batches of `batch`: full
/// batches, then the final partial batch with its actual weight.
pub open spec fn batch_plan_spec(remaining: nat, batch: nat) -> Seq<usize>
    recommends
        batch > 0,
    decreases remaining,
{
    if remaining == 0 || batch == 0 {
        Seq::empty()
    } else {
        let ops = if remaining < batch {
            remaining
        } else {
            batch
        };
        seq![ops as usize] + batch_plan_spec((remaining - ops) as nat, batch)
    }
}

/// The operations of each timed batch of a trial of `message_count` round trips:
/// one per batch when timing individual round trips, else the measurement batch size.
pub fn batch_plan(message_count: usize, latency: bool) -> (plan: Vec<usize>)
    ensures
        plan@ == batch_plan_spec(
            message_count as nat,
            if latency {
                1
            } else {
                batch_size_spec(message_count as nat)
            },
        ),
{
    let batch = if latency {
        1
    } else {
        measurement_batch_size(message_count)
    };
    let mut plan: Vec<usize> = Vec::new();
    let mut remaining = message_count;
    while remaining > 0
        invariant
            batch >= 1,
            remaining <= message_count,
            batch_plan_spec(message_count as nat, batch as nat) == plan@ + batch_plan_spec(
                remaining as nat,
                batch as nat,
            ),
        decreases remaining,
    {
        let ops = if remaining < batch {
            remaining
        } else {
            batch
        };
        proof {
            assert(batch_plan_spec(remaining as nat, batch as nat) == seq![ops] + batch_plan_spec(
                (remaining - ops) as nat,
                batch as nat,
            ));
            assert(plan@.push(ops) + batch_plan_spec((remaining - ops) as nat, batch as nat) =~= plan@
                + (seq![ops] + batch_plan_spec((remaining - ops) as nat, batch as nat)));
        }
        plan.push(ops);
        remaining = remaining - ops;
    }
    assert(plan@ + batch_plan_spec(0, batch as nat) =~= plan@);
    plan
}

pub open spec fn plan_total(plan: Seq<usize>) -> nat
    decreases plan.len(),
{
    if plan.len() == 0 {
        0
    } else {
        (plan[0] + plan_total(plan.drop_first())) as nat
    }
}

/// A trial's batches cover exactly its operations; each holds at least one and at
/// most a batch of them, and only the last may be partial.
pub proof fn lemma_batch_plan_covers(remaining: nat, batch: nat)
    requires
        0 < batch <= usize::MAX,
    ensures
        plan_total(batch_plan_spec(remaining, batch)) == remaining,
        batch_plan_spec(remaining, batch).len() == if remaining % batch == 0 {
            remaining / batch
        } else {
            remaining / batch + 1
        },
        forall|i: int|
            0 <= i < batch_plan_spec(remaining, batch).len() ==> 1 <= #[trigger] batch_plan_spec(
                remaining,
                batch,
            )[i] <= batch,
        forall|i: int|
            0 <= i < batch_plan_spec(remaining, batch).len() - 1 ==> #[trigger] batch_plan_spec(
                remaining,
                batch,
            )[i] == batch,
    decreases remaining,
{
    if remaining > 0 {
        let ops = if remaining < batch {
            remaining
        } else {
            batch
        };
        lemma_batch_plan_covers((remaining - ops) as nat, batch);
        let p = batch_plan_spec(remaining, batch);
        let rest = batch_plan_spec((remaining - ops) as nat, batch);
        assert(p.drop_first() =~= rest);
        assert(p[0] == ops);
        if remaining < batch {
            assert(rest.len() == 0);
            assert(remaining / batch == 0) by (nonlinear_arith)
                requires
                    remaining < batch,
            ;
            assert(remaining % batch == remaining) by (nonlinear_arith)
                requires
                    remaining < batch,
            ;
        } else {
            let r = remaining as int;
            let b = batch as int;
            assert((r - b) / b == r / b - 1 && (r - b) % b == r % b) by (nonlinear_arith)
                requires
                    r >= b,
                    b > 0,
            ;
        }
        assert forall|i: int| 0 <= i < p.len() implies 1 <= #[trigger] p[i] <= batch by {
            if i > 0 {
                assert(p[i] == rest[i - 1]);
            }
        }
        assert forall|i: int| 0 <= i < p.len() - 1 implies #[trigger] p[i] == batch by {
            if i > 0 {
                assert(p[i] == rest[i - 1]);
            }
        }
    }
}

/// Where in a round-trip run an operation stands.
#[derive(Clone, Copy, Debug, PartialEq, Eq, Structural)]
pub enum Phase {
    Preflight,
    Warmup,
    /// Batch `index` of the `batches` timed batches of a trial.
    Timed { index: usize, batches: usize },
    Final,
}

/// Whether the operations of a phase validate full payloads: the preflight, warmup
/// and final exchanges always do; timed batches do under full validation, and under
/// sampled validation the last batch of each trial does.
pub fn phase_validates_fully(full_validation: bool, phase: Phase) -> (full: bool)
    ensures
        full == match phase {
            Phase::Timed { index, batches } => full_validation || index + 1 == batches,
            _ => true,
        },
{
    match phase {
        Phase::Timed { index, batches } => full_validation || (index < batches && index + 1
            == batches),
        _ => true,
    }
}

/// The workload a round-trip report names: the harness smoke target measures only
/// harness overhead.
pub fn round_trip_workload_label(method: &str) -> (label: &'static str)
    ensures
        label@ == if method@ == "placeholder"@ {
            "harness-overhead"@
        } else {
            "round-trip"@
        },
{
    if str_eq(method, "placeholder") {
        "harness-overhead"
    } else {
        "round-trip"
    }
}

/// The validation policy a round-trip report names.
pub fn validation_policy_label(method: &str, config: &BenchmarkConfig) -> (label: &'static str)
    ensures
        label@ == if method@ == "placeholder"@ {
            "none"@
        } else if config@.validation == "full"@ {
            "full-payload-every-operation"@
        } else {
            "sequence-every-operation;full-every-1024;full-preflight-and-final;full-last-batch-each-trial"@
        },
{
    if str_eq(method, "placeholder") {
        "none"
    } else if str_eq(config.validation.as_str(), "full") {
        "full-payload-every-operation"
    } else {
        "sequence-every-operation;full-every-1024;full-preflight-and-final;full-last-batch-each-trial"
    }
}

/// The unit one retained sample measures.
pub fn sampling_unit_label(config: &BenchmarkConfig) -> (label: &'static str)
    ensures
        label@ == if config@.measurement == "latency"@ {
            "individual-round-trip"@
        } else {
            "batch-average-round-trip"@
        },
{
    if str_eq(config.measurement.as_str(), "latency") {
        "individual-round-trip"
    } else {
        "batch-average-round-trip"
    }
}

/// Operations per timed batch that a report states.
pub fn report_batch_size(config: &BenchmarkConfig) -> (size: usize)
    ensures
        size == if config@.measurement == "latency"@ {
            1
        } else {
            batch_size_spec(config.message_count as nat)
        },
{
    if str_eq(config.measurement.as_str(), "latency") {
        1
    } else {
        measurement_batch_size(config.message_count)
    }
}

/// Round trips (or deliveries) timed over all trials.
pub fn timed_operation_count(config: &BenchmarkConfig) -> (count: usize)
    requires
        config.message_count * config.trials <= usize::MAX,
    ensures
        count == config.message_count * config.trials,
{
    config.message_count * config.trials
}

/// Which direction's payload bytes a throughput report counts: requests when
/// streaming, responses when windowed.
pub fn byte_count_direction(config: &BenchmarkConfig) -> (label: &'static str)
    ensures
        label@ == if config@.workload == "streaming"@ {
            "requests"@
        } else {
            "responses"@
        },
{
    if str_eq(config.workload.as_str(), "streaming") {
        "requests"
    } else {
        "responses"
    }
}

/// Payload bytes delivered in one throughput trial, unless the count overflows.
pub fn delivered_payload_bytes(config: &BenchmarkConfig) -> (bytes: Option<usize>)
    ensures
        bytes == if config.message_count * config.message_size <= usize::MAX {
            Some((config.message_count * config.message_size) as usize)
        } else {
            None::<usize>
        },
{
    config.message_count.checked_mul(config.message_size)
}

/// Most delivery-latency samples a throughput trial retains.
pub const LATENCY_SAMPLE_LIMIT: usize = 65536;

/// Retains a delivery-latency sample while fewer than the limit are held.
pub fn record_delivery_latency<S>(samples: &mut Vec<S>, sample: Option<S>)
    ensures
        sample is Some && old(samples)@.len() < LATENCY_SAMPLE_LIMIT ==> final(samples)@ == old(
            samples,
        )@.push(sample->0),
        !(sample is Some && old(samples)@.len() < LATENCY_SAMPLE_LIMIT) ==> final(samples)@ == old(
            samples,
        )@,
{
    if let Some(x) = sample {
        if samples.len() < LATENCY_SAMPLE_LIMIT {
            samples.push(x);
        }
    }
}

/// Counts of the parent's explicit signal and wait calls.
#[derive(Clone, Copy, Debug, PartialEq, Eq, Structural)]
pub struct SyncCounts {
    pub signals: u64,
    pub waits: u64,
}

/// Counts one explicit signal call.
pub fn record_signal(counts: &mut SyncCounts)
    requires
        old(counts).signals < u64::MAX,
    ensures
        final(counts).signals == old(counts).signals + 1,
        final(counts).waits == old(counts).waits,
{
    counts.signals = counts.signals + 1;
}

/// Counts one explicit wait call.
pub fn record_wait(counts: &mut SyncCounts)
    requires
        old(counts).waits < u64::MAX,
    ensures
        final(counts).waits == old(counts).waits + 1,
        final(counts).signals == old(counts).signals,
{
    counts.waits = counts.waits + 1;
}

} // verus!
