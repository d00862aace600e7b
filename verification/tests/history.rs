use sayit::history::{check_history_content, check_writes_open, explicit_correction, pause_for_data_root_migration, resume_after_failed_data_root_migration};
use sayit::history::{final_draft_action, retry_injection_text, retry_target_matches, retry_target_mismatch, FinalDraftAction};
use sayit::history::{
    default_page_size, diff_segments, history_recording_allowed, manual_correction_pair, output_metrics, WriteGate,
};
use sayit::json::Json;

#[test]
fn usage_metrics_ignore_whitespace_and_never_report_negative_savings() {
    let (chars, saved) = output_metrics("你好  world", 1_000);
    assert_eq!(chars, 7);
    assert!(saved > 0);
    let (_, saved) = output_metrics("短", 120_000);
    assert_eq!(saved, 0);
}

#[test]
fn correction_without_baseline_pairs_output_and_final_text() {
    let (before, after) = manual_correction_pair("原文", None, "改后");
    assert_eq!(before, "原文");
    assert_eq!(after, "改后");
}

#[test]
fn correction_is_cut_back_to_the_injected_span() {
    let (before, after) = manual_correction_pair("世界", Some("你好世界！"), "你好地球！");
    assert_eq!(before, "世界");
    assert_eq!(after, "地球");
}

#[test]
fn correction_falls_back_to_the_baseline_when_context_changed() {
    let (before, after) = manual_correction_pair("世界", Some("你好世界！"), "再见地球");
    assert_eq!(before, "你好世界！");
    assert_eq!(after, "再见地球");
}

#[test]
fn diff_segments_merge_runs_of_the_same_kind() {
    let segments = diff_segments("abc", "abd");
    let parts: Vec<(String, String)> = segments.iter().map(|s| (s.kind.clone(), s.text.clone())).collect();
    assert_eq!(
        parts,
        vec![
            ("equal".to_string(), "ab".to_string()),
            ("delete".to_string(), "c".to_string()),
            ("insert".to_string(), "d".to_string()),
        ]
    );
}

#[test]
fn page_size_and_write_gate_defaults() {
    assert!(default_page_size() > 0);
    let gate = WriteGate { paused: false };
    assert!(!gate.paused);
}

#[test]
fn recording_respects_switch_and_excluded_apps() {
    let prefs = Json::Object(vec![
        ("enabled".to_string(), Json::Bool(true)),
        (
            "excludedApps".to_string(),
            Json::Array(vec![Json::Str("1Password".into()), Json::Number(Some(3)), Json::Str("keychain.exe".into())]),
        ),
    ]);
    assert!(history_recording_allowed(&prefs, "Notes", "notes.exe"));
    assert!(!history_recording_allowed(&prefs, " 1PASSWORD ", "x"));
    assert!(!history_recording_allowed(&prefs, "Keys", "KEYCHAIN.EXE"));
    let off = Json::Object(vec![("enabled".to_string(), Json::Bool(false))]);
    assert!(!history_recording_allowed(&off, "Notes", "notes.exe"));
    assert!(history_recording_allowed(&Json::Null, "Notes", "notes.exe"));
    assert!(history_recording_allowed(&Json::Object(vec![]), "Notes", "notes.exe"));
}

#[test]
fn observed_final_drafts_are_checked_before_saving() {
    use_checks();
}

fn use_checks() {
    assert_eq!(sayit::history::check_observed_final_text("好", "low", "keyboard").unwrap_err(), "最终草稿可信度无效");
    assert_eq!(sayit::history::check_observed_final_text("好", "high", "voice").unwrap_err(), "最终草稿来源无效");
    assert_eq!(sayit::history::check_observed_final_text(" \n", "medium", "click").unwrap_err(), "空的最终草稿不会保存");
    assert!(sayit::history::check_observed_final_text("好", "medium", "autoEnter").is_ok());
    assert!(sayit::history::observed_target("succeeded", "dictation"));
    assert!(!sayit::history::observed_target("failed", "dictation"));
    assert_eq!(sayit::history::observed_correction(Some("新"), "旧"), Some("新"));
    assert_eq!(sayit::history::observed_correction(Some("旧"), "旧"), None);
    assert_eq!(sayit::history::observed_correction(Some("  "), "旧"), None);
    assert_eq!(sayit::history::check_confirmed_final_text("", "succeeded").unwrap_err(), "修正后的文本不能为空");
    assert_eq!(
        sayit::history::check_confirmed_final_text("文本", "processed").unwrap_err(),
        "本次任务仍在处理，请完成后再修正；现在可以复制原文"
    );
    assert!(sayit::history::check_confirmed_final_text("文本", "succeeded").is_ok());
}

#[test]
fn retried_injection_prefers_the_final_text_and_checks_the_target() {
    assert_eq!(retry_injection_text("succeeded", Some("最终"), "输出").unwrap(), "最终");
    assert_eq!(retry_injection_text("succeeded", Some("  "), "输出").unwrap(), "输出");
    assert_eq!(retry_injection_text("failed", None, " ").unwrap_err(), "这条记录没有可重试注入的结果");
    assert_eq!(
        retry_injection_text("processed", None, "输出").unwrap_err(),
        "本次任务仍在处理，不能重复注入；现在可以复制原文"
    );
    assert!(retry_target_matches("", "Notes", "other.exe", "Other"));
    assert!(retry_target_matches("NOTEPAD.EXE", "Notes", "notepad.exe", "Other"));
    assert!(!retry_target_matches("notepad.exe", "Notes", "word.exe", "Word"));
    assert_eq!(
        retry_target_mismatch("Word", "", "notepad.exe"),
        "当前目标是 Word，与历史记录来源 notepad.exe 不一致，已取消注入"
    );
    assert_eq!(final_draft_action("succeeded"), FinalDraftAction::Consume);
    assert_eq!(final_draft_action("cancelled"), FinalDraftAction::Cancel);
    assert_eq!(final_draft_action("processed"), FinalDraftAction::Keep);
}

#[test]
fn history_writes_follow_the_gate_and_skip_empty_entries() {
    let mut gate = WriteGate { paused: false };
    assert!(check_writes_open(&gate).is_ok());
    pause_for_data_root_migration(&mut gate);
    assert_eq!(check_writes_open(&gate).unwrap_err(), "数据目录迁移后历史写入已暂停，请重启应用");
    resume_after_failed_data_root_migration(&mut gate);
    assert!(check_writes_open(&gate).is_ok());
    assert_eq!(check_history_content(" ", "\n").unwrap_err(), "空内容不会写入历史");
    assert!(check_history_content("", "输出").is_ok());
    assert!(explicit_correction("editSelection", "succeeded", "原文", "改后"));
    assert!(!explicit_correction("editSelection", "succeeded", "同", "同"));
    assert!(!explicit_correction("dictation", "succeeded", "原文", "改后"));
}
