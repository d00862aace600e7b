use sayit::transcription::normalize_job_kind;
use sayit::translation::{resolve_provider, validate_available};

#[test]
fn unknown_job_kinds_fall_back_to_transcribe() {
    assert_eq!(normalize_job_kind("align"), "align");
    assert_eq!(normalize_job_kind("  compare "), "compare");
    assert_eq!(normalize_job_kind("dictation"), "dictation");
    assert_eq!(normalize_job_kind("transcribe"), "transcribe");
    assert_eq!(normalize_job_kind("乱写的"), "transcribe");
    assert_eq!(normalize_job_kind("ALIGN"), "transcribe");
}

#[test]
fn translation_requires_a_selected_model() {
    let message = "请先在“智能助手”中选择翻译模型";
    assert_eq!(resolve_provider("  ", None, "default".into()).unwrap_err(), message);
    assert_eq!(resolve_provider("none", None, "default".into()).unwrap_err(), message);
    assert_eq!(resolve_provider("gpt", None, "default".into()).unwrap(), "default");
    assert_eq!(resolve_provider("plugin-model", Some("plugin-a".into()), "default".into()).unwrap(), "plugin-a");
}

#[test]
fn disabled_translation_provider_is_reported() {
    assert_eq!(validate_available("gpt", None, "llm-openai".into(), true).unwrap(), "llm-openai");
    assert_eq!(
        validate_available("gpt", None, "llm-openai".into(), false).unwrap_err(),
        "翻译供应商 llm-openai 不存在或未启用"
    );
    assert!(validate_available("none", None, "llm-openai".into(), false).is_err());
}
