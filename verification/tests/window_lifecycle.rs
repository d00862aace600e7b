use sayit::window_lifecycle::{EnsureMainWindowAction, MainWindowLifecycle, MainWindowPhase};

#[test]
fn repeated_open_while_creating_never_requests_a_second_window() {
    let mut lifecycle = MainWindowLifecycle::default();
    assert_eq!(
        lifecycle.request_open(false),
        EnsureMainWindowAction::Create { generation: 1 }
    );
    assert_eq!(
        lifecycle.request_open(true),
        EnsureMainWindowAction::AwaitReady
    );
    assert!(lifecycle.mark_ready());
    assert_eq!(lifecycle.phase(), MainWindowPhase::Visible);
}

#[test]
fn create_failure_is_recoverable_and_stale_failure_is_ignored() {
    let mut lifecycle = MainWindowLifecycle::default();
    assert_eq!(
        lifecycle.request_open(false),
        EnsureMainWindowAction::Create { generation: 1 }
    );
    lifecycle.creation_failed(1);
    assert_eq!(lifecycle.phase(), MainWindowPhase::Absent);
    assert_eq!(
        lifecycle.request_open(false),
        EnsureMainWindowAction::Create { generation: 2 }
    );
    lifecycle.creation_failed(1);
    assert_eq!(lifecycle.phase(), MainWindowPhase::Creating);
}

#[test]
fn closing_does_not_restart_or_own_background_domains() {
    let mut lifecycle = MainWindowLifecycle::default();
    lifecycle.register_initial_window(true);
    assert!(lifecycle.mark_ready());
    lifecycle.begin_close();
    assert_eq!(lifecycle.phase(), MainWindowPhase::Closing);
    lifecycle.close_completed();
    assert_eq!(lifecycle.phase(), MainWindowPhase::Absent);
}

#[test]
fn hidden_initial_window_stays_ready_until_explicit_open() {
    let mut lifecycle = MainWindowLifecycle::default();
    lifecycle.register_initial_window(false);
    assert!(!lifecycle.mark_ready());
    assert_eq!(lifecycle.phase(), MainWindowPhase::Ready);
    assert_eq!(
        lifecycle.request_open(true),
        EnsureMainWindowAction::ShowExisting
    );
    assert_eq!(lifecycle.phase(), MainWindowPhase::Visible);
}

#[test]
fn close_failure_keeps_window_hidden_and_generation_wraps() {
    let mut lifecycle = MainWindowLifecycle::default();
    lifecycle.register_initial_window(true);
    lifecycle.begin_close();
    lifecycle.close_failed_hidden();
    assert_eq!(lifecycle.phase(), MainWindowPhase::Ready);
    assert!(!lifecycle.mark_ready());
    let mut wrapped = MainWindowLifecycle {
        phase: MainWindowPhase::Absent,
        generation: u64::MAX,
        open_requested: false,
    };
    assert_eq!(
        wrapped.request_open(false),
        EnsureMainWindowAction::Create { generation: 0 }
    );
}
