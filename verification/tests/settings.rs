use sayit::json::Json;
use sayit::settings::{adopt_legacy, is_default_theme, is_empty_object, prune_template_references, valid_object};
use sayit::settings::{decode_cue, schema_version, settings_domain, SettingsDomain};

#[test]
fn old_json_gets_schema_version_one() {
    assert_eq!(schema_version(), 1);
}

#[test]
fn settings_domains_are_recognised_and_unknown_ones_rejected() {
    assert_eq!(settings_domain("dictation").unwrap(), SettingsDomain::Dictation);
    assert_eq!(settings_domain("subtitles").unwrap(), SettingsDomain::Subtitles);
    assert_eq!(settings_domain("comparison").unwrap(), SettingsDomain::Comparison);
    assert_eq!(settings_domain("customization").unwrap(), SettingsDomain::Customization);
    assert_eq!(settings_domain("theme").unwrap(), SettingsDomain::Theme);
    assert_eq!(settings_domain("other").unwrap_err(), "未知配置领域：other");
}

#[test]
fn cue_data_url_is_decoded() {
    let (file, bytes) = decode_cue("start", "data:audio/wav;base64,AAEC").unwrap();
    assert_eq!(file.relative_path, "cues/start.audio");
    assert_eq!(file.mime_type, "audio/wav");
    assert_eq!(bytes, vec![0, 1, 2]);
    let (file, bytes) = decode_cue("end", "data:audio/mpeg;base64,aGk=").unwrap();
    assert_eq!(file.relative_path, "cues/end.audio");
    assert_eq!(bytes, b"hi".to_vec());
}

#[test]
fn cue_errors_follow_the_checks_in_order() {
    assert_eq!(decode_cue("middle", "data:audio/wav;base64,AAEC").unwrap_err(), "未知提示音位置");
    assert_eq!(decode_cue("start", "no comma").unwrap_err(), "提示音 Data URL 无效");
    assert_eq!(decode_cue("start", "data:image/png;base64,AAEC").unwrap_err(), "提示音 MIME 类型无效");
    assert_eq!(decode_cue("start", "audio/wav;base64,AAEC").unwrap_err(), "提示音 MIME 类型无效");
    assert_eq!(decode_cue("start", "data:audio/wav,AAEC").unwrap_err(), "提示音 MIME 类型无效");
    assert_eq!(
        decode_cue("start", "data:audio/wav;base64,!!!!").unwrap_err(),
        "提示音 Base64 无效：Invalid symbol 33, offset 0."
    );
    let huge = format!("data:audio/wav;base64,{}", "A".repeat(20 * 1024 * 1024));
    assert_eq!(decode_cue("start", &huge).unwrap_err(), "提示音数据超过 20 MiB");
}

fn object(members: Vec<(&str, Json)>) -> Json {
    Json::Object(members.into_iter().map(|(k, v)| (k.to_string(), v)).collect())
}

#[test]
fn rejects_non_object_domain() {
    assert!(valid_object(&Json::Array(vec![])).is_err());
    assert_eq!(valid_object(&Json::Array(vec![])).unwrap_err(), "配置必须是 JSON 对象");
    assert!(valid_object(&object(vec![])).is_ok());
}

#[test]
fn deleting_a_template_downgrades_shortcut_override_to_inherit() {
    let mut refs = vec![Some("deleted".to_string())];
    let prefs = object(vec![(
        "smartTemplates",
        Json::Array(vec![object(vec![("id", Json::Str("remaining".to_string()))])]),
    )]);
    prune_template_references(&mut refs, &prefs);
    assert!(refs[0].is_none());
    let mut refs = vec![Some("remaining".to_string()), None];
    prune_template_references(&mut refs, &prefs);
    assert_eq!(refs, vec![Some("remaining".to_string()), None]);
}

#[test]
fn legacy_values_fill_only_untouched_domains() {
    let theme = object(vec![
        ("accent", Json::Str("#5199FF".to_string())),
        ("tone", Json::Str("dark".to_string())),
    ]);
    assert!(is_default_theme(&theme));
    assert!(!is_default_theme(&object(vec![("tone", Json::Str("light".to_string()))])));
    assert!(is_empty_object(&object(vec![])));
    let legacy = object(vec![("mode", Json::Str("scroll".to_string()))]);
    let adopted = adopt_legacy(object(vec![]), true, Some(object(vec![("mode", Json::Str("scroll".to_string()))]))).unwrap();
    assert_eq!(adopted, legacy);
    let kept = adopt_legacy(object(vec![("a", Json::Null)]), false, Some(object(vec![]))).unwrap();
    assert_eq!(kept, object(vec![("a", Json::Null)]));
    assert!(adopt_legacy(object(vec![]), true, Some(Json::Bool(true))).is_err());
}
