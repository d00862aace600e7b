use sayit::idle_reclaim::{eligible, DomainRunState, Plan, ReclaimSnapshot, IDLE_DELAY_MS};

const SECOND: u64 = 1_000;

#[test]
fn release_bursts_keep_one_worker_and_wait_for_last_release() {
    let start: u64 = 1_000_000;
    let mut plan = Plan::default();
    assert!(plan.request(start));
    for second in 1..20 {
        assert!(!plan.request(start + second * SECOND));
    }
    assert!(!plan.claim(start + 23 * SECOND));
    assert!(plan.claim(start + 24 * SECOND));
    assert!(!plan.claim(start + 25 * SECOND));
    assert!(plan.next_deadline().is_none());
    assert!(plan.request(start + 30 * SECOND));
}

#[test]
fn release_during_reclaim_is_handled_by_existing_worker() {
    let start: u64 = 1_000_000;
    let mut plan = Plan::default();
    assert!(plan.request(start));
    assert!(plan.claim(start + IDLE_DELAY_MS));
    assert!(!plan.request(start + IDLE_DELAY_MS));
    assert_eq!(plan.next_deadline(), Some(start + IDLE_DELAY_MS * 2));
    assert!(plan.claim(start + IDLE_DELAY_MS * 2));
    assert_eq!(plan.next_deadline(), None);
    assert!(!plan.worker_running);
}

#[test]
fn no_release_event_means_no_timer_and_no_reclaim() {
    let mut plan = Plan::default();
    assert!(plan.next_deadline().is_none());
    assert!(!plan.claim(1_000_000 + 3600 * SECOND));
    assert!(!plan.worker_running);
}

fn idle() -> ReclaimSnapshot {
    ReclaimSnapshot {
        audio_busy: false,
        asr_streams: Some(0),
        transcriptions: Some(0),
        dictation: Some(DomainRunState::Idle),
        subtitles: Some(DomainRunState::Idle),
        compare_settled: true,
        audio_lab_idle: true,
    }
}

#[test]
fn running_audio_recognition_and_pending_jobs_prevent_reclaim() {
    let state = idle();
    assert!(eligible(&state));
    assert!(!eligible(&ReclaimSnapshot { audio_busy: true, ..idle() }));
    assert!(!eligible(&ReclaimSnapshot { asr_streams: Some(1), ..idle() }));
    assert!(!eligible(&ReclaimSnapshot { transcriptions: Some(1), ..idle() }));
    assert!(!eligible(&ReclaimSnapshot { compare_settled: false, ..idle() }));
    assert!(!eligible(&ReclaimSnapshot { asr_streams: None, ..idle() }));
    assert!(eligible(&ReclaimSnapshot { dictation: Some(DomainRunState::Failed), ..idle() }));
    assert!(!eligible(&ReclaimSnapshot { subtitles: Some(DomainRunState::Running), ..idle() }));
    assert!(eligible(&state));
}

#[test]
fn recording_audio_lab_prevents_reclaim() {
    let state = idle();
    assert!(eligible(&state));
    let recording = ReclaimSnapshot { audio_lab_idle: false, ..idle() };
    assert!(!eligible(&recording));
}
