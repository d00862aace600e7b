use sayit::reconnect::{Budget, STABLE_CONNECTION_MS};

const MAX_RECONNECT_ATTEMPTS: u32 = 6;

#[test]
fn preparing_repeatedly_failing_connections_does_not_reset_budget() {
    let start: u64 = 1_000_000;
    let mut budget = Budget::default();
    for attempt in 1..=MAX_RECONNECT_ATTEMPTS + 1 {
        let now = start + attempt as u64 * 1_000;
        budget.started(now);
        budget.received_text(" \n");
        assert_eq!(budget.disconnected(now + 50), attempt);
    }
}

#[test]
fn recognized_text_restores_budget() {
    let now: u64 = 1_000_000;
    let mut budget = Budget::default();
    budget.started(now);
    assert_eq!(budget.disconnected(now), 1);
    budget.started(now);
    budget.received_text("恢复后的字幕");
    assert_eq!(budget.disconnected(now), 1);
}

#[test]
fn stable_silent_connection_restores_budget_at_boundary() {
    let now: u64 = 1_000_000;
    let mut budget = Budget::default();
    budget.started(now);
    assert_eq!(budget.disconnected(now), 1);
    budget.started(now);
    assert_eq!(budget.disconnected(now + STABLE_CONNECTION_MS - 1), 2);
    budget.started(now);
    assert_eq!(budget.disconnected(now + STABLE_CONNECTION_MS), 1);
}

#[test]
fn disconnect_without_start_keeps_counting_and_saturates() {
    let mut budget = Budget { attempts: u32::MAX, started_at: None };
    assert_eq!(budget.disconnected(5), u32::MAX);
    assert_eq!(budget.started_at, None);
}
