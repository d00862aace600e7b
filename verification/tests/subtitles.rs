use sayit::setup::Platform;
use sayit::subtitles::{
    clause_cut, default_subtitle_font_family, tail_chars, SubtitleDocument, TranslationDocument, MAX_TEXT_CHARS,
};

const REPLACE: &str = "replace";

#[test]
fn default_font_matches_the_current_desktop_platform() {
    assert_eq!(default_subtitle_font_family(Platform::MacOs), "PingFang SC");
    assert_eq!(default_subtitle_font_family(Platform::Windows), "Microsoft YaHei");
    assert_eq!(default_subtitle_font_family(Platform::Other), "Microsoft YaHei");
}

#[test]
fn dispatch_recovers_when_stale_offset_lands_inside_a_multibyte_char() {
    let mut document = TranslationDocument::new();
    let first = document.dispatch("Yes.", false);
    assert_eq!(first.len(), 1);
    assert_eq!(document.partial_offset, 4);

    let text = "你好世界";
    assert!(!text.is_char_boundary(4));
    let out = document.dispatch(text, true);

    assert_eq!(document.partial_offset, text.len());
    assert_eq!(out.last().map(|(_, value)| value.as_str()), Some("你好世界"));
}

#[test]
fn reset_partial_clears_cursor_across_sessions() {
    let mut document = TranslationDocument::new();
    document.dispatch("Yes.", false);
    assert_ne!(document.partial_offset, 0);
    document.reset_partial();
    assert_eq!(document.partial_offset, 0);
}

#[test]
fn replacement_continues_within_gap_and_resets_after_gap() {
    let now = 1_000_000u64;
    let mut doc = SubtitleDocument::new();
    doc.on_partial("第一句".into(), REPLACE, now);
    doc.commit(REPLACE, now);
    doc.on_partial("第二句".into(), REPLACE, now + 2_000);
    doc.commit(REPLACE, now + 2_000);
    assert_eq!(doc.replace_line, "第一句 第二句");
    doc.on_partial("新行".into(), REPLACE, now + 5_000);
    assert_eq!(doc.display(REPLACE, 1), "新行");
}

#[test]
fn long_sentence_keeps_translation_in_sync_with_the_source_line() {
    let now = 1_000_000u64;
    let mut doc = SubtitleDocument::new();
    let mut translation = TranslationDocument::new();

    doc.on_partial("第一句。".into(), REPLACE, now);
    for (seq, _) in translation.dispatch("第一句。", true) {
        translation.update(seq, "One.");
    }
    doc.commit(REPLACE, now);
    translation.commit(REPLACE, doc.replace_continuing);

    let start = now + 300;
    doc.on_partial("第二".into(), REPLACE, start);
    let finish = start + 4_000;
    doc.on_partial("第二句。".into(), REPLACE, finish);
    for (seq, _) in translation.dispatch("第二句。", true) {
        translation.update(seq, "Two.");
    }
    doc.commit(REPLACE, finish);
    translation.commit(REPLACE, doc.replace_continuing);

    assert_eq!(doc.display(REPLACE, 1), "第一句。 第二句。");
    assert_eq!(translation.display(REPLACE, 1), "One. Two.");
}

#[test]
fn a_real_pause_starts_a_new_line_for_both_source_and_translation() {
    let now = 1_000_000u64;
    let mut doc = SubtitleDocument::new();
    let mut translation = TranslationDocument::new();

    doc.on_partial("第一句。".into(), REPLACE, now);
    for (seq, _) in translation.dispatch("第一句。", true) {
        translation.update(seq, "One.");
    }
    doc.commit(REPLACE, now);
    translation.commit(REPLACE, doc.replace_continuing);

    let later = now + 5_000;
    doc.on_partial("第二句。".into(), REPLACE, later);
    for (seq, _) in translation.dispatch("第二句。", true) {
        translation.update(seq, "Two.");
    }
    doc.commit(REPLACE, later);
    translation.commit(REPLACE, doc.replace_continuing);

    assert_eq!(doc.display(REPLACE, 1), "第二句。");
    assert_eq!(translation.display(REPLACE, 1), "Two.");
}

#[test]
fn scroll_mode_crops_to_visible_lines() {
    let mut doc = SubtitleDocument::new();
    for line in ["一", "二", "三"] {
        doc.on_partial(line.into(), "scroll", 0);
        doc.commit("scroll", 0);
    }
    assert_eq!(doc.display("scroll", 2), "二\n三");
}

#[test]
fn clause_split_prefers_punctuation_and_forces_long_tail() {
    assert_eq!(clause_cut("你好，世界，再见"), Some("你好，世界，".len()));
    assert_eq!(clause_cut("这是完整句子。后续"), Some("这是完整句子。".len()));
    assert!(clause_cut(&"字".repeat(60)).is_some());
    assert_eq!(clause_cut(&"字".repeat(59)), None);
    assert_eq!(clause_cut("a. b! c"), Some("a. b!".len()));
}

#[test]
fn translation_order_is_rebuilt_by_sequence_not_arrival() {
    let mut doc = TranslationDocument::new();
    doc.current_group = vec![1, 2];
    doc.values.insert(1, String::new());
    doc.values.insert(2, String::new());
    doc.update(2, "world");
    doc.update(1, "hello ");
    assert_eq!(doc.display(REPLACE, 1), "hello world");
}

fn legacy_commit(doc: &mut TranslationDocument, mode: &str, continuing: bool) {
    let group = std::mem::take(&mut doc.current_group);
    doc.committed_groups.push(group.clone());
    if doc.committed_groups.len() > 12 {
        doc.committed_groups.remove(0);
    }
    if mode == "replace" {
        if continuing {
            doc.replace_groups.push(group);
        } else {
            doc.replace_groups = vec![group];
        }
    }
    doc.partial_offset = 0;
}

fn legacy_dispatch(doc: &mut TranslationDocument, text: &str) -> Vec<(u64, String)> {
    let out = doc.dispatch(text, true);
    out
}

fn same_display(doc: &TranslationDocument, legacy: &TranslationDocument) {
    for (mode, lines) in [("replace", 1), ("scroll", 1), ("scroll", 3), ("scroll", 12)] {
        assert_eq!(doc.display(mode, lines), legacy.display(mode, lines), "mode={mode}, lines={lines}");
    }
}

#[test]
fn rendering_and_retention_match_old_output_with_out_of_order_streams() {
    let mut doc = TranslationDocument::new();
    let mut legacy = TranslationDocument::new();
    let mut pending = Vec::new();
    for index in 0..160 {
        let source = "第一句。第二句。尾句";
        let dispatched = doc.dispatch(source, true);
        assert_eq!(dispatched, legacy_dispatch(&mut legacy, source));
        for (seq, _) in dispatched {
            let long_partial = format!("  {} {seq}", " 中🙂\t".repeat(500));
            doc.update(seq, &long_partial);
            legacy.values.insert(seq, long_partial);
            same_display(&doc, &legacy);
            pending.push(seq);
        }
        let mode = if index % 19 == 0 { "scroll" } else { "replace" };
        let continuing = index % 17 != 0;
        doc.commit(mode, continuing);
        legacy_commit(&mut legacy, mode, continuing);
        same_display(&doc, &legacy);
        if pending.len() > 8 {
            let seq = pending.remove(pending.len() - 3);
            let text = if seq % 3 == 0 { String::new() } else { format!("译{seq}{}", "🙂 汉\n".repeat(90)) };
            doc.update(seq, &text);
            doc.finish(seq);
            legacy.values.insert(seq, text);
            same_display(&doc, &legacy);
        }
    }
    for seq in pending.into_iter().rev() {
        let text = format!("  最终{seq}{}", "中文🙂 ".repeat(160));
        doc.update(seq, &text);
        doc.finish(seq);
        legacy.values.insert(seq, text);
        same_display(&doc, &legacy);
    }
}

#[test]
fn completed_history_stays_bounded_and_late_events_cannot_restore_it() {
    for mode in ["scroll", "replace"] {
        let mut doc = TranslationDocument::new();
        for _ in 0..4_000 {
            let seq = doc.dispatch("一句", true)[0].0;
            doc.update(seq, &"字".repeat(300));
            doc.finish(seq);
            doc.commit(mode, true);
        }
        assert!(doc.values.len() <= 12, "{mode}: {}", doc.values.len());
        assert!(doc.replace_groups.len() <= 7);
        assert!(!doc.update(1, "迟到旧结果"));
        assert!(!doc.values.contains_key(&1));
    }
}

#[test]
fn a_single_uncommitted_sentence_and_empty_results_are_reclaimed() {
    let mut doc = TranslationDocument::new();
    let mut text = String::new();
    for index in 0..2_000 {
        text.push_str("一句。");
        for (seq, _) in doc.dispatch(&text, false) {
            doc.update(seq, &if index % 2 == 0 { "译".repeat(300) } else { String::new() });
            doc.finish(seq);
        }
        assert!(doc.current_group.len() <= 7);
        assert!(doc.values.len() <= 7);
    }
}

#[test]
fn a_shorter_final_can_reveal_older_text_until_the_suffix_is_stable() {
    let mut doc = TranslationDocument::new();
    let old = doc.dispatch("旧句", true)[0].0;
    doc.update(old, "旧译文");
    doc.finish(old);
    doc.commit(REPLACE, false);
    let new = doc.dispatch("新句", true)[0].0;
    doc.update(new, &"临时".repeat(2_000));
    doc.commit(REPLACE, true);
    assert!(doc.values.contains_key(&old));
    doc.update(new, "短最终");
    doc.finish(new);
    assert_eq!(doc.display(REPLACE, 1), "旧译文 短最终");
    assert!(!doc.update(new, "完成后重复事件"));
}

#[test]
fn clipping_preserves_whitespace_and_character_boundaries() {
    for size in [0, 1, 1799, 1800, 1801, 1802, 4000] {
        for prefix in [" ", "\n\t", "🙂"] {
            let text = format!("{prefix}{}", "字".repeat(size));
            let mut doc = TranslationDocument::new();
            let seq = doc.dispatch("句", true)[0].0;
            doc.update(seq, &text);
            assert_eq!(doc.display(REPLACE, 1), tail_chars(&text, MAX_TEXT_CHARS));
        }
    }
}

#[test]
fn tail_keeps_the_last_characters_and_trims_only_when_clipped() {
    assert_eq!(tail_chars("  abc", 10), "  abc");
    assert_eq!(tail_chars("abc def", 4), "def");
    assert_eq!(tail_chars("abcdef", 3), "def");
}

#[test]
fn blank_source_commit_is_dropped_and_history_is_bounded() {
    let mut doc = SubtitleDocument::new();
    doc.on_partial("  ".into(), "scroll", 0);
    doc.commit("scroll", 0);
    assert!(doc.committed.is_empty());
    assert!(doc.current.is_empty());
    for i in 0..20 {
        doc.on_partial(format!("第{i}句"), "scroll", 0);
        doc.commit("scroll", 0);
    }
    assert_eq!(doc.committed.len(), 12);
    assert_eq!(doc.committed[0], "第8句");
}
