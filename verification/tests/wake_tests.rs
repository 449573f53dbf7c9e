use ipc_bench::wake::{should_signal, simulate_wake_handshake, spin_budget_from, wait_step, WaitAction, WaitStrategy};

#[test]
fn wake_handshake_interleavings_have_no_lost_notification() {
    // Every order-preserving merge of the producer's publish/notify (true) with the
    // receiver's arm/recheck (false).
    for order in [
        [true, true, false, false],
        [true, false, true, false],
        [true, false, false, true],
        [false, true, true, false],
        [false, true, false, true],
        [false, false, true, true],
    ] {
        let (blocked, event) = simulate_wake_handshake(&order);
        assert!(!blocked || event);
    }
}

#[test]
fn receiver_blocks_only_when_it_armed_before_publication() {
    // The receiver arms and rechecks before the producer publishes: it blocks, and the
    // producer's notify sees the armed flag and signals.
    assert_eq!(simulate_wake_handshake(&[false, false, true, true]), (true, true));
    // The producer finishes first: the receiver sees the publication and never blocks.
    assert_eq!(simulate_wake_handshake(&[true, true, false, false]), (false, false));
    // Arm, publish, recheck, notify: the recheck sees the publication.
    assert_eq!(simulate_wake_handshake(&[false, true, false, true]), (false, true));
}

#[test]
fn hybrid_waiter_spins_then_arms_then_sleeps() {
    let mut spins = 0usize;
    let mut actions = Vec::new();
    for _ in 0..5 {
        let (action, next) = wait_step(WaitStrategy::Hybrid, spins, 2, true, true);
        actions.push(action);
        spins = next;
    }
    assert_eq!(
        actions,
        vec![
            WaitAction::SpinOnce,
            WaitAction::SpinOnce,
            WaitAction::ArmSleeping,
            WaitAction::WaitForEvent,
            WaitAction::SpinOnce,
        ]
    );
    assert_eq!(spins, 1);
    assert_eq!(wait_step(WaitStrategy::Hybrid, 2, 2, false, true), (WaitAction::WaitForEvent, 0));
    assert_eq!(wait_step(WaitStrategy::Hybrid, 9, 2, true, false), (WaitAction::SpinOnce, 9));
    assert_eq!(wait_step(WaitStrategy::Spin, 7, 0, true, true), (WaitAction::SpinOnce, 7));
}

#[test]
fn spin_budget_setting() {
    assert_eq!(spin_budget_from(None), 256);
    assert_eq!(spin_budget_from(Some("0")), 0);
    assert_eq!(spin_budget_from(Some("1000")), 1000);
    assert_eq!(spin_budget_from(Some("5000000")), 1_000_000);
    assert_eq!(spin_budget_from(Some("many")), 256);
    assert_eq!(spin_budget_from(Some("")), 256);
}

#[test]
fn conditional_wake_signals_only_armed_receivers() {
    assert!(should_signal(false, false));
    assert!(should_signal(false, true));
    assert!(!should_signal(true, false));
    assert!(should_signal(true, true));
}
