use sayit::subtitle_preview::{
    frame_at, is_active, render_frame, sentence_duration, stop_locked, FrameStep, PreviewPlayback, PreviewPrefs,
    StopStep,
};

const LINE_1_SOURCE: &str = "你可以在这里调整字体、颜色、位置和动画，所见即所得。";
const LINE_1_TRANSLATION: &str =
    "You can adjust the font, color, position and animation here, and see the result instantly.";

fn default_prefs() -> PreviewPrefs {
    PreviewPrefs {
        mode: "replace".into(),
        line_count: 1,
        translation_model: "none".into(),
        translation_layout: "bilingual".into(),
    }
}

#[test]
fn preview_starts_with_visible_text_and_loops() {
    let prefs = default_prefs();
    assert_eq!(frame_at(0, &prefs), ("嗨".to_string(), String::new()));
    let cycle: u64 = (0..4).map(|i| sentence_duration(i, false)).sum();
    assert_eq!(frame_at(cycle, &prefs), frame_at(0, &prefs));
}

#[test]
fn scroll_tracks_keep_matching_history_and_respect_line_limit() {
    let mut prefs = PreviewPrefs {
        mode: "scroll".into(),
        line_count: 2,
        translation_model: "fixture-only".into(),
        translation_layout: "bilingual".into(),
    };
    let elapsed = sentence_duration(0, true) + sentence_duration(1, true);
    let (source, translation) = frame_at(elapsed, &prefs);
    assert_eq!(source, format!("{}\n开", LINE_1_SOURCE));
    assert_eq!(translation, format!("{}\nO", LINE_1_TRANSLATION));
    prefs.mode = "replace".into();
    assert_eq!(frame_at(elapsed, &prefs), ("开".to_string(), "O".to_string()));
    prefs.translation_layout = "translationOnly".into();
    assert_eq!(frame_at(elapsed, &prefs), ("O".to_string(), String::new()));
}

#[test]
fn typing_speed_and_durations() {
    assert_eq!(sentence_duration(0, false), 21 * 60 + 900);
    assert_eq!(sentence_duration(3, false), 21 * 60 + 3000);
    let prefs = default_prefs();
    assert_eq!(frame_at(119, &prefs).0, "嗨，");
}

#[test]
fn frames_are_drawn_once_and_yield_to_dictation() {
    let mut slot = Some(PreviewPlayback { prefs: default_prefs(), presented: false, last_frame: None });
    assert!(is_active(Ok(&slot)));
    match render_frame(&mut slot, false, 0) {
        FrameStep::Show { present, source, translation } => {
            assert!(present);
            assert_eq!(source, "嗨");
            assert_eq!(translation, "");
        }
        FrameStep::Nothing => panic!("first frame must be drawn"),
    }
    assert!(matches!(render_frame(&mut slot, false, 10), FrameStep::Nothing));
    assert!(matches!(render_frame(&mut slot, false, 60), FrameStep::Show { present: false, .. }));
    assert!(matches!(render_frame(&mut slot, true, 60), FrameStep::Nothing));
    assert!(matches!(render_frame(&mut slot, false, 60), FrameStep::Show { present: true, .. }));
    assert!(matches!(stop_locked(&mut slot, false), StopStep::Stopped { hide_indicator: true }));
    assert!(slot.is_none());
    assert!(!is_active(Ok(&slot)));
    assert!(!is_active::<PreviewPlayback>(Err(())));
    assert!(matches!(stop_locked(&mut slot, false), StopStep::Nothing));
    assert!(matches!(render_frame(&mut slot, false, 0), FrameStep::Nothing));
}
