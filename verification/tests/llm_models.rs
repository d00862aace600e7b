use sayit::llm_models::provider_endpoint;
use sayit::llm_models::{adapter_kind, LlmAdapter};
use sayit::llm_models::{
    merge_remote_models, models_after_refresh, same_connection, LlmModelAvailability, LlmModelConfig,
    LlmModelSource, ProviderConnection,
};

#[test]
fn merge_remote_models_deduplicates_and_preserves_manual_and_customized_entries() {
    let mut customized = LlmModelConfig::remote("removed-model");
    customized.reasoning_effort = "high".to_string();
    let models = merge_remote_models(
        vec![LlmModelConfig::manual("manual-model"), LlmModelConfig::remote("old-model"), customized],
        vec![" z-model ".into(), "a-model".into(), "a-model".into()],
        "old-model",
    );

    assert_eq!(
        models.iter().map(|model| model.name.as_str()).collect::<Vec<_>>(),
        vec!["a-model", "manual-model", "old-model", "removed-model", "z-model"]
    );
    assert_eq!(
        models.iter().find(|model| model.name == "old-model").unwrap().availability,
        LlmModelAvailability::Missing
    );
    assert_eq!(
        models.iter().find(|model| model.name == "removed-model").unwrap().availability,
        LlmModelAvailability::Missing
    );
}

#[test]
fn merge_remote_models_removes_unselected_stale_default_entry() {
    let models = merge_remote_models(vec![LlmModelConfig::remote("old-model")], vec!["new-model".into()], "");
    assert_eq!(models, vec![LlmModelConfig::remote("new-model")]);
}

#[test]
fn listed_model_keeps_its_options_and_becomes_available_remote() {
    let mut manual = LlmModelConfig::manual("Shared");
    manual.max_tokens = Some(512);
    manual.availability = LlmModelAvailability::Missing;
    let models = merge_remote_models(vec![manual], vec!["Shared".into(), "alpha".into()], "");
    assert_eq!(models.len(), 2);
    assert_eq!(models[0].name, "alpha");
    assert_eq!(models[1].name, "Shared");
    assert_eq!(models[1].source, LlmModelSource::Remote);
    assert_eq!(models[1].availability, LlmModelAvailability::Available);
    assert_eq!(models[1].max_tokens, Some(512));
}

#[test]
fn sorting_ignores_case_and_keeps_order_of_equal_keys() {
    let models = merge_remote_models(Vec::new(), vec!["b".into(), "B".into(), "a".into()], "");
    assert_eq!(models.iter().map(|m| m.name.as_str()).collect::<Vec<_>>(), vec!["a", "b", "B"]);
}

#[test]
fn blank_listing_keeps_the_old_list_and_first_model_is_selected() {
    let error = models_after_refresh(vec![LlmModelConfig::manual("m")], vec!["  ".into()], "").unwrap_err();
    assert_eq!(error, "供应商没有返回可用模型，已保留原模型列表");
    let (models, selected) = models_after_refresh(Vec::new(), vec!["zeta".into(), "Alpha".into()], "").unwrap();
    assert_eq!(models.len(), 2);
    assert_eq!(selected, "Alpha");
    let (_, selected) = models_after_refresh(Vec::new(), vec!["zeta".into()], "mine").unwrap();
    assert_eq!(selected, "mine");
}

#[test]
fn connection_compares_kind_and_trimmed_credentials() {
    let a = ProviderConnection { kind: "llm:custom".into(), api_key: " key ".into(), endpoint: "https://x/v1".into() };
    let b = ProviderConnection { kind: "llm:custom".into(), api_key: "key".into(), endpoint: " https://x/v1 ".into() };
    let c = ProviderConnection { kind: "llm:openai".into(), api_key: "key".into(), endpoint: "https://x/v1".into() };
    let d = ProviderConnection { kind: "llm:custom".into(), api_key: "other".into(), endpoint: "https://x/v1".into() };
    assert!(same_connection(&a, &b));
    assert!(!same_connection(&a, &c));
    assert!(!same_connection(&a, &d));
}

#[test]
fn provider_kinds_map_to_their_adapters() {
    assert_eq!(adapter_kind("llm:custom").unwrap(), LlmAdapter::OpenAI);
    assert_eq!(adapter_kind("llm:deepseek").unwrap(), LlmAdapter::OpenAIResp);
    assert_eq!(adapter_kind("llm:open_router").unwrap(), LlmAdapter::OpenRouter);
    assert_eq!(adapter_kind("llm:foo").unwrap_err(), "不支持的大语言模型适配器：foo");
    assert_eq!(adapter_kind("asr:openai").unwrap_err(), "供应商不是大语言模型配置");
}

#[test]
fn model_refresh_requires_api_key() {
    let error = provider_endpoint("llm:custom", "", "https://example.com/v1", "Custom", false, None).unwrap_err();
    assert!(error.contains("API Key"));
}

#[test]
fn custom_and_responses_providers_bring_their_endpoint() {
    assert_eq!(
        provider_endpoint("llm:custom", "secret", " https://example.com/v1 ", "Custom", false, None),
        Ok(Some("https://example.com/v1".to_string()))
    );
    assert_eq!(
        provider_endpoint("llm:deepseek", "secret", "", "DeepSeek", true, Some("https://api.deepseek.com/v1")),
        Ok(Some("https://api.deepseek.com/v1".to_string()))
    );
    assert_eq!(provider_endpoint("llm:openai", "secret", "", "OpenAI", false, None), Ok(None));
    assert_eq!(
        provider_endpoint("llm:custom", "secret", "example.com", "Custom", false, None),
        Err("自定义大语言模型的接口地址无效".to_string())
    );
    assert_eq!(
        provider_endpoint("llm:deepseek", "secret", "ftp://x", "DeepSeek", true, None),
        Err("DeepSeek 的 Responses API 接口地址无效".to_string())
    );
    assert_eq!(
        provider_endpoint("asr:whisper", "secret", "", "W", false, None),
        Err("供应商不是大语言模型配置".to_string())
    );
    assert_eq!(
        provider_endpoint("llm:openai", "  ", "", "OpenAI", false, None),
        Err("请先为 OpenAI 设置 API Key".to_string())
    );
}
