//! Waiting for a peer: busy spinning, or spinning for a budget and then sleeping on
//! an event. With conditional wake, the receiver arms a sleeping flag and rechecks
//! before it sleeps, and the producer signals only a receiver that armed; either the
//! receiver observes the publication or the producer observes the armed flag.
use vstd::prelude::*;

use crate::text::{parse_usize, parse_usize_spec};

verus! {

/// How a receiver waits for its peer.
#[derive(Clone, Copy, Debug, PartialEq, Eq, Structural)]
pub enum WaitStrategy {
    Spin,
    Hybrid,
}

/// What one waiting step does.
#[derive(Clone, Copy, Debug, PartialEq, Eq, Structural)]
pub enum WaitAction {
    /// Spin once, then recheck.
    SpinOnce,
    /// Arm the sleeping flag, then recheck before sleeping.
    ArmSleeping,
    /// Block on the event until signalled.
    WaitForEvent,
}

/// The step a waiter takes after `spins` unsuccessful checks, and its next count.
pub open spec fn wait_step_spec(
    strategy: WaitStrategy,
    spins: usize,
    budget: usize,
    conditional_wake: bool,
    has_event: bool,
) -> (WaitAction, usize) {
    match strategy {
        WaitStrategy::Spin => (WaitAction::SpinOnce, spins),
        WaitStrategy::Hybrid => if spins < budget {
            (WaitAction::SpinOnce, (spins + 1) as usize)
        } else if conditional_wake && spins == budget {
            (WaitAction::ArmSleeping, (spins + 1) as usize)
        } else if has_event {
            (WaitAction::WaitForEvent, 0)
        } else {
            (WaitAction::SpinOnce, spins)
        },
    }
}

/// Decides one waiting step. A hybrid waiter spins `budget` times, then (with
/// conditional wake) arms once, then blocks on its event and starts counting again.
pub fn wait_step(
    strategy: WaitStrategy,
    spins: usize,
    budget: usize,
    conditional_wake: bool,
    has_event: bool,
) -> (step: (WaitAction, usize))
    requires
        budget < usize::MAX,
    ensures
        step == wait_step_spec(strategy, spins, budget, conditional_wake, has_event),
{
    match strategy {
        WaitStrategy::Spin => (WaitAction::SpinOnce, spins),
        WaitStrategy::Hybrid => {
            if spins < budget {
                (WaitAction::SpinOnce, spins + 1)
            } else if conditional_wake && spins == budget {
                (WaitAction::ArmSleeping, spins + 1)
            } else if has_event {
                (WaitAction::WaitForEvent, 0)
            } else {
                (WaitAction::SpinOnce, spins)
            }
        },
    }
}

/// The spin budget a setting asks for: its decimal value, at most one million;
/// 256 when it is absent or not a number.
pub open spec fn spin_budget_spec(value: Option<Seq<char>>) -> usize {
    match value {
        Some(s) => match parse_usize_spec(s) {
            Some(n) => if n < 1_000_000 {
                n
            } else {
                1_000_000
            },
            None => 256,
        },
        None => 256,
    }
}

/// Reads the spin-budget setting.
pub fn spin_budget_from(value: Option<&str>) -> (budget: usize)
    ensures
        budget == spin_budget_spec(
            match value {
                Some(s) => Some(s@),
                None => None,
            },
        ),
        budget <= 1_000_000,
{
    match value {
        Some(s) => match parse_usize(s) {
            Some(n) => if n < 1_000_000 {
                n
            } else {
                1_000_000
            },
            None => 256,
        },
        None => 256,
    }
}

/// Whether a producer signals the receiver's event after publishing: always without
/// conditional wake, else only when the receiver had armed its sleeping flag.
pub fn should_signal(conditional_wake: bool, receiver_was_armed: bool) -> (signal: bool)
    ensures
        signal == (!conditional_wake || receiver_was_armed),
{
    !conditional_wake || receiver_was_armed
}

/// The shared state of the publish/arm handshake, one step at a time.
pub struct HandshakeState {
    pub producer_step: u8,
    pub consumer_step: u8,
    pub ready: bool,
    pub armed: bool,
    pub event: bool,
    pub blocked: bool,
}

pub open spec fn initial_handshake() -> HandshakeState {
    HandshakeState {
        producer_step: 0,
        consumer_step: 0,
        ready: false,
        armed: false,
        event: false,
        blocked: false,
    }
}

/// One step: the producer publishes, then notifies (signalling when the receiver was
/// armed, and disarming it); the receiver arms, then rechecks and blocks if nothing
/// was published.
pub open spec fn handshake_step(s: HandshakeState, producer: bool) -> HandshakeState {
    if producer {
        if s.producer_step == 0 {
            HandshakeState { ready: true, producer_step: 1, ..s }
        } else {
            HandshakeState {
                event: s.event || s.armed,
                armed: false,
                producer_step: (s.producer_step + 1) as u8,
                ..s
            }
        }
    } else {
        if s.consumer_step == 0 {
            HandshakeState { armed: true, consumer_step: 1, ..s }
        } else {
            HandshakeState { blocked: !s.ready, consumer_step: (s.consumer_step + 1) as u8, ..s }
        }
    }
}

/// The state after running a schedule of steps (`true` for the producer).
pub open spec fn run_handshake(schedule: Seq<bool>) -> HandshakeState
    decreases schedule.len(),
{
    if schedule.len() == 0 {
        initial_handshake()
    } else {
        handshake_step(run_handshake(schedule.drop_last()), schedule.last())
    }
}

pub open spec fn producer_steps(schedule: Seq<bool>) -> nat
    decreases schedule.len(),
{
    if schedule.len() == 0 {
        0
    } else {
        producer_steps(schedule.drop_last()) + if schedule.last() {
            1nat
        } else {
            0nat
        }
    }
}

/// Runs a schedule of the handshake; returns whether the receiver blocked and
/// whether its event was signalled.
pub fn simulate_wake_handshake(schedule: &[bool]) -> (outcome: (bool, bool))
    requires
        schedule@.len() <= 4,
    ensures
        outcome == (run_handshake(schedule@).blocked, run_handshake(schedule@).event),
{
    let mut state = HandshakeState {
        producer_step: 0,
        consumer_step: 0,
        ready: false,
        armed: false,
        event: false,
        blocked: false,
    };
    let mut i: usize = 0;
    while i < schedule.len()
        invariant
            i <= schedule@.len() <= 4,
            state == run_handshake(schedule@.take(i as int)),
            state.producer_step <= i,
            state.consumer_step <= i,
        decreases schedule@.len() - i,
    {
        assert(schedule@.take(i + 1).drop_last() =~= schedule@.take(i as int));
        if schedule[i] {
            if state.producer_step == 0 {
                state = HandshakeState { ready: true, producer_step: 1, ..state };
            } else {
                state = HandshakeState {
                    event: state.event || state.armed,
                    armed: false,
                    producer_step: state.producer_step + 1,
                    ..state
                };
            }
        } else {
            if state.consumer_step == 0 {
                state = HandshakeState { armed: true, consumer_step: 1, ..state };
            } else {
                state = HandshakeState {
                    blocked: !state.ready,
                    consumer_step: state.consumer_step + 1,
                    ..state
                };
            }
        }
        i = i + 1;
    }
    assert(schedule@.take(schedule@.len() as int) =~= schedule@);
    (state.blocked, state.event)
}

/// No lost notification: in every interleaving of the producer's two steps with the
/// receiver's two steps, a receiver that blocks has its event signalled.
pub proof fn lemma_no_lost_notification(schedule: Seq<bool>)
    requires
        schedule.len() == 4,
        producer_steps(schedule) == 2,
    ensures
        !run_handshake(schedule).blocked || run_handshake(schedule).event,
{
    assert(schedule.drop_last().drop_last().drop_last().drop_last() =~= Seq::<bool>::empty());
    reveal_with_fuel(run_handshake, 5);
    reveal_with_fuel(producer_steps, 5);
}

} // verus!
