use sayit::idle_reclaim::DomainRunState;
use sayit::json::Json;
use sayit::transcription::{EventOutcome, TranscriptionRuntime};

fn object(members: Vec<(&str, Json)>) -> Json {
    Json::Object(members.into_iter().map(|(k, v)| (k.to_string(), v)).collect())
}

fn text(value: &str) -> Json {
    Json::Str(value.to_string())
}

fn field<'a>(payload: &'a Json, key: &str) -> &'a Json {
    match payload {
        Json::Object(members) => &members.iter().find(|(k, _)| k == key).expect("member").1,
        _ => panic!("not an object"),
    }
}

/// The payload an event is delivered with: read back from the runtime when it keeps the job.
fn delivered(runtime: &TranscriptionRuntime, id: &str, outcome: EventOutcome) -> Option<Json> {
    match outcome {
        EventOutcome::Unknown => None,
        EventOutcome::Delivered(payload) => Some(payload),
        EventOutcome::Kept => {
            let job = runtime.get(id).expect("kept job");
            Some(copy(&job.payload))
        }
    }
}

fn copy(value: &Json) -> Json {
    match value {
        Json::Null => Json::Null,
        Json::Bool(b) => Json::Bool(*b),
        Json::Number(n) => Json::Number(*n),
        Json::Str(s) => Json::Str(s.clone()),
        Json::Array(items) => Json::Array(items.iter().map(copy).collect()),
        Json::Object(members) => Json::Object(members.iter().map(|(k, v)| (k.clone(), copy(v))).collect()),
    }
}

fn complete(runtime: &mut TranscriptionRuntime, id: &str, kind: &str) -> Json {
    runtime.register(id, kind).unwrap();
    let payload = object(vec![(
        "result",
        object(vec![("transcripts", Json::Array(vec![object(vec![("text", text(id))])]))]),
    )]);
    let outcome = runtime.apply_event(id, "completed", payload);
    let result = delivered(runtime, id, outcome).unwrap();
    runtime.finish(id);
    result
}

#[test]
fn a_job_keeps_the_kind_it_was_registered_with() {
    let mut runtime = TranscriptionRuntime::new();
    runtime.register("align-1", "align").unwrap();
    runtime.register("job-1", "transcribe").unwrap();
    runtime.apply_event("align-1", "polling", object(vec![]));
    runtime.apply_event("job-1", "polling", object(vec![]));
    assert_eq!(runtime.get("align-1").unwrap().kind, "align");
    assert_eq!(runtime.get("job-1").unwrap().kind, "transcribe");
}

#[test]
fn unknown_kinds_fall_back_to_transcribe() {
    let mut runtime = TranscriptionRuntime::new();
    runtime.register("job-2", "乱写的").unwrap();
    runtime.apply_event("job-2", "polling", object(vec![]));
    assert_eq!(runtime.get("job-2").unwrap().kind, "transcribe");

    let mut runtime = TranscriptionRuntime::new();
    assert!(matches!(runtime.apply_event("job-3", "polling", object(vec![])), EventOutcome::Unknown));
    assert!(runtime.get("job-3").is_none());
}

#[test]
fn completed_job_remains_recoverable_but_is_not_running() {
    let mut runtime = TranscriptionRuntime::new();
    runtime.register("job-1", "transcribe").unwrap();
    runtime.apply_event("job-1", "uploading", object(vec![("filePath", text("a.wav"))]));
    assert_eq!(runtime.domain_snapshot().state, DomainRunState::Running);
    runtime.apply_event(
        "job-1",
        "completed",
        object(vec![("result", object(vec![("transcripts", Json::Array(vec![]))]))]),
    );
    runtime.finish("job-1");
    assert_eq!(runtime.domain_snapshot().state, DomainRunState::Idle);
    assert_eq!(runtime.get("job-1").unwrap().stage, "completed");
}

#[test]
fn snapshots_are_stably_sorted_for_window_recovery() {
    let mut runtime = TranscriptionRuntime::new();
    runtime.register("job-b", "transcribe").unwrap();
    runtime.register("job-a", "transcribe").unwrap();
    runtime.apply_event("job-b", "uploading", object(vec![]));
    runtime.apply_event("job-a", "completed", object(vec![]));
    assert_eq!(runtime.snapshot_order(), vec!["job-b", "job-a"]);
}

#[test]
fn repeated_jobs_keep_only_latest_page_results_and_no_completed_registrations() {
    let mut runtime = TranscriptionRuntime::new();
    let kinds = ["transcribe", "align", "compare", "dictation"];
    for index in 0..1000 {
        for kind in kinds {
            let id = format!("{kind}-{index}");
            let result = complete(&mut runtime, &id, kind);
            assert_eq!(field(&result, "kind"), &text(kind));
            let transcripts = field(field(&result, "result"), "transcripts");
            match transcripts {
                Json::Array(items) => assert_eq!(field(&items[0], "text"), &text(&id)),
                _ => panic!("transcripts"),
            }
        }
    }
    let order = runtime.snapshot_order();
    assert_eq!(order.len(), 2);
    assert!(order.iter().all(|id| id.ends_with("-999") && !runtime.get(id).unwrap().active));
    assert_eq!(runtime.registration_count(), 0);
    assert_eq!(runtime.latest_count(), 2);
}

#[test]
fn older_active_job_can_finish_without_replacing_the_newer_result() {
    let mut runtime = TranscriptionRuntime::new();
    runtime.register("z-older", "transcribe").unwrap();
    runtime.apply_event("z-older", "uploading", object(vec![]));
    complete(&mut runtime, "a-newer", "transcribe");
    assert_eq!(runtime.domain_snapshot().state, DomainRunState::Running);
    assert_eq!(runtime.snapshot_order().len(), 2);
    let outcome = runtime.apply_event("z-older", "completed", object(vec![("result", text("older"))]));
    let delivered = delivered(&runtime, "z-older", outcome).unwrap();
    assert_eq!(field(&delivered, "result"), &text("older"));
    runtime.finish("z-older");
    assert_eq!(runtime.domain_snapshot().state, DomainRunState::Idle);
    assert_eq!(runtime.snapshot_order()[0], "a-newer");
}

#[test]
fn cancellation_keeps_registration_until_worker_exits_and_late_events_cannot_recreate_it() {
    let mut runtime = TranscriptionRuntime::new();
    runtime.register("compare-1", "compare").unwrap();
    let outcome = runtime.apply_event("compare-1", "error", object(vec![("cancelled", Json::Bool(true))]));
    let event = delivered(&runtime, "compare-1", outcome).unwrap();
    assert_eq!(field(&event, "kind"), &text("compare"));
    assert!(runtime.snapshot_order().is_empty());
    assert!(runtime.is_registered("compare-1"));
    let outcome = runtime.apply_event("compare-1", "error", object(vec![]));
    let event = delivered(&runtime, "compare-1", outcome).unwrap();
    assert_eq!(field(&event, "kind"), &text("compare"));
    runtime.finish("compare-1");
    assert!(matches!(runtime.apply_event("compare-1", "error", object(vec![])), EventOutcome::Unknown));
    assert!(runtime.snapshot_order().is_empty());
}

#[test]
fn starting_a_new_page_job_releases_the_replaced_result_and_preserves_other_page() {
    let mut runtime = TranscriptionRuntime::new();
    complete(&mut runtime, "old-transcribe", "transcribe");
    complete(&mut runtime, "old-align", "align");
    runtime.register("new-transcribe", "transcribe").unwrap();
    assert!(runtime.get("old-transcribe").is_none());
    assert!(runtime.get("old-align").is_some());
    runtime.apply_event("new-transcribe", "error", object(vec![("message", text("failed"))]));
    runtime.finish("new-transcribe");
    assert_eq!(field(&runtime.get("new-transcribe").unwrap().payload, "message"), &text("failed"));
    assert_eq!(runtime.snapshot_order().len(), 2);
}

#[test]
fn non_object_payload_is_delivered_under_data() {
    let mut runtime = TranscriptionRuntime::new();
    runtime.register("job-9", "compare").unwrap();
    let outcome = runtime.apply_event("job-9", "completed", text("plain"));
    let event = delivered(&runtime, "job-9", outcome).unwrap();
    assert_eq!(field(&event, "data"), &text("plain"));
    assert_eq!(field(&event, "jobId"), &text("job-9"));
    assert_eq!(field(&event, "stage"), &text("completed"));
}

#[test]
fn registering_twice_keeps_the_first_purpose() {
    let mut runtime = TranscriptionRuntime::new();
    runtime.register("job-1", "align").unwrap();
    runtime.register("job-1", "compare").unwrap();
    runtime.apply_event("job-1", "polling", object(vec![]));
    assert_eq!(runtime.get("job-1").unwrap().kind, "align");
    assert_eq!(runtime.domain_snapshot().session_id.as_deref(), Some("job-1"));
}
