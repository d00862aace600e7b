use sayit::idle_reclaim::DomainRunState;
use sayit::subtitle_session::{
    domain_snapshot, indicator_texts, owns_indicator, reconnect_plan, wants_indicator_visible, LevelAction, ReconnectPlan,
    SubtitlePhase, SubtitleSession,
};

#[test]
fn late_translation_epoch_is_rejected_by_session_guard() {
    let mut session: SubtitleSession<u64> = SubtitleSession::new();
    session.epoch = 8;
    session.phase = SubtitlePhase::Running;
    session.translation.dispatch("当前会话", true);
    assert!(!session.apply_translation(7, 1, "旧会话", false));
    assert!(session.apply_translation(8, 1, "当前会话", false));
    assert_eq!(session.translation.values.get(&1).unwrap(), "当前会话");
}

#[test]
fn disabling_translation_settles_cancelled_placeholders_across_repeated_toggles() {
    let mut session: SubtitleSession<u64> = SubtitleSession::new();
    for _ in 0..1_000 {
        session.translation_model = "test-model".into();
        session.translation.dispatch("尚未返回的分句", true);
        session.translation.commit("replace", true);
        session.translation_model = "none".into();
        session.cancel_obsolete_translations();
        assert!(session.translation.values.is_empty());
        assert!(session.translation.replace_groups.is_empty());
        assert!(session.translation.completed.is_empty());
    }
}

#[test]
fn translation_failures_are_reported_and_stale_events_ignored() {
    let mut session: SubtitleSession<u64> = SubtitleSession::new();
    session.epoch = 3;
    session.phase = SubtitlePhase::Running;
    session.translation_model = "model".into();
    session.translation.dispatch("一句。", false);
    let (accepted, cancel) = session.record_translation(3, 1, "", true, Some("超时"));
    assert!(accepted);
    assert!(cancel.is_empty());
    assert_eq!(session.translation_error.as_deref(), Some("字幕翻译失败：超时"));
    assert!(!session.record_translation(3, 1, "晚到", false, None).0);
    assert!(!session.record_translation(2, 1, "旧", false, None).0);
    session.translation.dispatch("一句。两句。", false);
    assert!(session.record_translation(3, 2, "Two.", false, None).0);
    assert!(session.translation_error.is_none());
    assert_eq!(session.translation.values.get(&2).unwrap(), "Two.");
}

#[test]
fn indicator_ownership_and_visibility() {
    assert!(owns_indicator(true, None));
    assert!(!owns_indicator(false, None));
    assert!(!owns_indicator(false, Some(SubtitlePhase::Idle)));
    assert!(owns_indicator(false, Some(SubtitlePhase::Stopping)));
    assert!(wants_indicator_visible(false, Some((SubtitlePhase::Running, false))));
    assert!(!wants_indicator_visible(false, Some((SubtitlePhase::Running, true))));
    assert!(!wants_indicator_visible(false, Some((SubtitlePhase::Idle, false))));
    assert!(wants_indicator_visible(true, None));
}

#[test]
fn domain_snapshot_maps_phases() {
    assert_eq!(domain_snapshot(SubtitlePhase::Idle, None).state, DomainRunState::Idle);
    assert_eq!(domain_snapshot(SubtitlePhase::WaitingForVoice, None).state, DomainRunState::Running);
    assert_eq!(domain_snapshot(SubtitlePhase::Reconnecting, None).state, DomainRunState::Running);
    assert_eq!(domain_snapshot(SubtitlePhase::Stopping, None).state, DomainRunState::Stopping);
    let failed = domain_snapshot(SubtitlePhase::Failed, Some("s-1".into()));
    assert_eq!(failed.state, DomainRunState::Failed);
    assert_eq!(failed.session_id.as_deref(), Some("s-1"));
}

#[test]
fn session_wants_asr_only_while_live_without_a_stream() {
    let mut session: SubtitleSession<u64> = SubtitleSession::new();
    session.epoch = 1;
    assert!(!session.wants_asr(1));
    session.phase = SubtitlePhase::WaitingForVoice;
    assert!(session.wants_asr(1));
    assert!(!session.wants_asr(2));
    session.asr_session_id = Some("asr".into());
    assert!(!session.wants_asr(1));
}

#[test]
fn snapshot_shows_both_documents() {
    let mut session: SubtitleSession<u64> = SubtitleSession::new();
    session.phase = SubtitlePhase::Running;
    session.public_id = Some("pub".into());
    session.document.on_partial("你好".into(), "replace", 0);
    session.translation.dispatch("你好。", true);
    session.translation.update(1, "Hello.");
    let snapshot = session.snapshot(false);
    assert_eq!(snapshot.phase, SubtitlePhase::Running);
    assert_eq!(snapshot.original_text, "你好");
    assert_eq!(snapshot.translation_text, "Hello.");
    assert_eq!(snapshot.session_id.as_deref(), Some("pub"));
    assert!(!snapshot.preview_active);
}

#[test]
fn voice_opens_one_stream_and_silence_closes_it() {
    let mut session: SubtitleSession<u64> = SubtitleSession::new();
    session.epoch = 2;
    session.phase = SubtitlePhase::WaitingForVoice;
    assert_eq!(session.on_audio_level(1, true, 100), LevelAction::Stop);
    assert_eq!(session.on_audio_level(2, false, 100), LevelAction::Nothing);
    assert_eq!(session.on_audio_level(2, true, 1_000), LevelAction::Open);
    assert_eq!(session.on_audio_level(2, true, 1_100), LevelAction::Nothing);
    session.opening_done(2);
    session.asr_session_id = Some("asr-1".into());
    session.phase = SubtitlePhase::Running;
    assert_eq!(session.on_audio_level(2, false, 6_099), LevelAction::Nothing);
    assert_eq!(session.on_audio_level(2, false, 6_100), LevelAction::Close);
    assert_eq!(session.disconnect_for_silence(2).as_deref(), Some("asr-1"));
    assert_eq!(session.phase, SubtitlePhase::WaitingForVoice);
    assert!(session.last_voice_at.is_none());
    assert_eq!(session.disconnect_for_silence(3), None);
    session.silence_disconnect_enabled = false;
    assert_eq!(session.on_audio_level(2, true, 7_000), LevelAction::Nothing);
    session.phase = SubtitlePhase::Stopping;
    assert_eq!(session.on_audio_level(2, true, 7_000), LevelAction::Stop);
}

fn delivery_session() -> SubtitleSession<u64> {
    let mut session: SubtitleSession<u64> = SubtitleSession::new();
    session.epoch = 7;
    session.phase = SubtitlePhase::Running;
    session.translation_model = "test-model".into();
    session
}

fn segment(session: &mut SubtitleSession<u64>) -> u64 {
    let seq = session.translation.dispatch("一句", true)[0].0;
    session.translation.commit("replace", true);
    seq
}

#[test]
fn out_of_order_short_final_preserves_previous_text() {
    let mut session = delivery_session();
    let first = segment(&mut session);
    let second = segment(&mut session);
    session.record_translation(7, second, &"临时🙂".repeat(20_000), false, None);
    assert_eq!(
        session.translation.values[&second].chars().count(),
        sayit::subtitles::MAX_TEXT_CHARS + 1
    );
    session.record_translation(7, first, "第一句", true, None);
    session.record_translation(7, second, "短最终", true, None);
    assert_eq!(session.translation.display(session.mode.as_str(), session.line_count), "第一句 短最终");
    assert_eq!(session.translation.completed.len(), 2);
}

#[test]
fn failure_retains_partial_and_settles_the_segment() {
    let mut session = delivery_session();
    let seq = segment(&mut session);
    session.record_translation(7, seq, "已有部分", false, None);
    let (accepted, _) = session.record_translation(7, seq, "", true, Some("本地模拟失败"));
    assert!(accepted);
    assert_eq!(session.translation.values[&seq], "已有部分");
    assert!(session.translation.completed.contains(&seq));
    assert_eq!(session.translation_error.as_deref(), Some("字幕翻译失败：本地模拟失败"));
}

#[test]
fn stale_unknown_and_stopped_results_do_not_mutate_or_notify() {
    let mut session = delivery_session();
    let seq = segment(&mut session);
    assert!(!session.record_translation(6, seq, "旧会话", true, None).0);
    assert!(!session.record_translation(7, seq + 1, "未知序号", true, None).0);
    for phase in [SubtitlePhase::Stopping, SubtitlePhase::Idle] {
        session.phase = phase;
        assert!(!session.record_translation(7, seq, "停止后结果", true, None).0);
    }
    assert!(session.translation.values[&seq].is_empty());
    assert!(session.translation.completed.is_empty());
}

#[test]
fn replacement_with_a_pending_notification_cannot_restore_old_payload() {
    let mut session = delivery_session();
    let seq = segment(&mut session);
    assert!(session.record_translation(7, seq, "旧结果", true, None).0);
    let mut session: SubtitleSession<u64> = SubtitleSession::new();
    session.epoch = 8;
    assert!(!session.record_translation(7, seq, "迟到", true, None).0);
    assert_eq!(session.epoch, 8);
    assert!(session.translation.display(session.mode.as_str(), session.line_count).is_empty());
}

#[test]
fn stalled_rendering_does_not_retain_completed_history_or_empty_placeholders() {
    let mut session = delivery_session();
    for index in 0..4_000 {
        let seq = segment(&mut session);
        let text = if index % 2 == 0 { "译".repeat(300) } else { String::new() };
        assert!(session.record_translation(7, seq, &text, true, None).0);
        assert!(session.translation.values.len() <= 12);
        assert!(session.translation.completed.len() <= 12);
    }
}

#[test]
fn asr_results_commit_and_stream_end_waits_for_voice() {
    let mut session = delivery_session();
    session.asr_session_id = Some("asr-1".into());
    let ignored = session.handle_asr_event("asr-0", "result", Some("别的"), true, 10);
    assert!(!ignored.handled);
    let partial = session.handle_asr_event("asr-1", "result", Some("第一句。第二"), false, 100);
    assert!(partial.handled);
    assert_eq!(partial.translate.len(), 1);
    assert_eq!(partial.translate[0].1, "第一句。");
    assert_eq!(session.document.current, "第一句。第二");
    let done = session.handle_asr_event("asr-1", "result", Some("第一句。第二句"), true, 200);
    assert_eq!(done.translate.len(), 1);
    assert_eq!(done.translate[0].1, "第二句");
    assert_eq!(session.document.committed, vec!["第一句。第二句".to_string()]);
    assert!(session.document.current.is_empty());
    let ended = session.handle_asr_event("asr-1", "closed", None, false, 300);
    assert!(ended.handled && ended.reconnect.is_none());
    assert_eq!(session.phase, SubtitlePhase::WaitingForVoice);
    assert!(session.asr_session_id.is_none());
}

#[test]
fn stream_end_without_silence_disconnect_schedules_reconnect() {
    let mut session = delivery_session();
    session.silence_disconnect_enabled = false;
    assert!(session.asr_opened(7, "asr-2".into()));
    assert!(!session.asr_opened(7, "asr-3".into()));
    let ended = session.handle_asr_event("asr-2", "error", None, false, 0);
    assert_eq!(ended.reconnect, Some(1));
    assert_eq!(session.phase, SubtitlePhase::Reconnecting);
    assert!(session.reconnect_due(7));
    assert!(!session.reconnect_due(6));
    assert_eq!(reconnect_plan(1), ReconnectPlan::RetryAfter(300));
    assert_eq!(reconnect_plan(6), ReconnectPlan::RetryAfter(1800));
    assert_eq!(reconnect_plan(7), ReconnectPlan::GiveUp);
}

#[test]
fn obs_output_survives_short_disconnections() {
    let mut session = delivery_session();
    assert!(!session.update_obs_output(true, true, 0));
    assert!(session.obs_active);
    assert!(!session.obs_needs_render(false, 1_000));
    assert!(session.update_obs_output(true, false, 1_000));
    assert!(session.obs_active);
    session.update_obs_output(true, false, 2_999);
    assert!(session.obs_active);
    assert!(session.obs_needs_render(false, 3_000));
    session.update_obs_output(true, false, 3_000);
    assert!(!session.obs_active);
    session.update_obs_output(false, true, 4_000);
    assert!(!session.obs_active);
    let (main, second) = indicator_texts("原文".into(), "译文".into(), "model", "translationOnly");
    assert_eq!((main.as_str(), second.as_str()), ("译文", ""));
    let (main, second) = indicator_texts("原文".into(), "译文".into(), "none", "bilingual");
    assert_eq!((main.as_str(), second.as_str()), ("原文", ""));
}

#[test]
fn an_ended_consumer_reports_the_first_known_error_of_a_live_session() {
    let mut session: SubtitleSession<u64> = SubtitleSession::new();
    session.epoch = 3;
    assert_eq!(session.consumer_end_error(3, Some("队列".into()), None), None);
    session.phase = SubtitlePhase::Running;
    assert_eq!(session.consumer_end_error(2, Some("队列".into()), None), None);
    assert_eq!(session.consumer_end_error(3, Some("队列".into()), Some("采集".into())), Some("队列".to_string()));
    assert_eq!(session.consumer_end_error(3, None, Some("采集".into())), Some("采集".to_string()));
    assert_eq!(session.consumer_end_error(3, None, None), Some("音频采集已意外停止".to_string()));
    session.phase = SubtitlePhase::Stopping;
    assert_eq!(session.consumer_end_error(3, None, None), None);
}
