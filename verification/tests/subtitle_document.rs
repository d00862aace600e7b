use sayit::subtitle_document::{format_srt_time, normalize_timeline, to_srt, SubtitleCue};

fn cue(id: &str, begin_ms: i64, end_ms: i64, text: &str) -> SubtitleCue {
    SubtitleCue { id: id.into(), begin_ms, end_ms, text: text.into(), speaker_id: None }
}

#[test]
fn normalizes_overlaps_and_minimum_duration_before_export() {
    let output = to_srt(vec![cue("b", 500, 400, " 后一句 "), cue("a", -1, 600, "前一句")]);
    assert_eq!(output, "1\r\n00:00:00,000 --> 00:00:00,600\r\n前一句\r\n\r\n2\r\n00:00:00,600 --> 00:00:00,900\r\n后一句\r\n");
}

#[test]
fn blank_cues_are_dropped_and_equal_keys_keep_input_order() {
    let cues = normalize_timeline(vec![
        cue("x", 1_000, 2_000, "second"),
        cue("blank", 0, 100, " \t "),
        cue("y", 1_000, 2_000, "third"),
        cue("z", 0, 500, "first"),
    ]);
    let ids: Vec<&str> = cues.iter().map(|c| c.id.as_str()).collect();
    assert_eq!(ids, vec!["z", "x", "y"]);
    assert_eq!((cues[1].begin_ms, cues[1].end_ms), (1_000, 2_000));
    assert_eq!((cues[2].begin_ms, cues[2].end_ms), (2_000, 2_300));
}

#[test]
fn srt_time_formats_hours_minutes_seconds_and_millis() {
    assert_eq!(format_srt_time(3_723_004), "01:02:03,004");
    assert_eq!(format_srt_time(-5), "00:00:00,000");
    assert_eq!(format_srt_time(360_000_000), "100:00:00,000");
}

#[test]
fn speaker_prefix_and_empty_export() {
    let mut with_speaker = cue("a", 0, 1_000, "你好");
    with_speaker.speaker_id = Some("2".into());
    let mut empty_speaker = cue("b", 1_000, 2_000, "再见");
    empty_speaker.speaker_id = Some(String::new());
    let output = to_srt(vec![with_speaker, empty_speaker]);
    assert_eq!(
        output,
        "1\r\n00:00:00,000 --> 00:00:01,000\r\n说话人 2：你好\r\n\r\n2\r\n00:00:01,000 --> 00:00:02,000\r\n再见\r\n"
    );
    assert_eq!(to_srt(Vec::new()), "\r\n");
}
