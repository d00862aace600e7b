use sayit::smart_text::{chat_messages, ChatRole};
use sayit::smart_text::{apply_stream_event, finish_stream, StreamEvent};
use sayit::llm_models::{LlmModelAvailability, LlmModelConfig, LlmModelSource};
use sayit::smart_text::{chat_settings, request_timeout_secs, structured_settings, ChatSettings, Reasoning};
use sayit::smart_text::{
    llm_route, resolve_plugin_llm, validate_available_for, LlmRoute,
    final_text_from_output, is_plugin_llm, render_prompt, replace_placeholders, requires_active_app_context,
    supports_explicit_reasoning_zero, supports_web_search,
};

#[test]
fn render_prompt_replaces_every_text_placeholder() {
    let prompt = render_prompt("整理：{{text}}\n原文：{{text}}", "你好", "", "", "").unwrap();
    assert_eq!(prompt, "整理：你好\n原文：你好");
}

#[test]
fn render_prompt_requires_placeholder() {
    let error = render_prompt("帮我整理", "你好", "", "", "").unwrap_err();
    assert!(error.contains("{{text}}"));
}

#[test]
fn render_prompt_replaces_every_context_placeholder() {
    let prompt = render_prompt(
        "上下文：{{active_app_context}}\n正文：{{text}}\n再次：{{active_app_context}}",
        "你好",
        "应用：记事本",
        "",
        "",
    )
    .unwrap();
    assert_eq!(prompt, "上下文：应用：记事本\n正文：你好\n再次：应用：记事本");
}

#[test]
fn render_prompt_allows_missing_context() {
    let prompt = render_prompt("上下文：{{active_app_context}}\n正文：{{text}}", "你好", "", "", "").unwrap();
    assert_eq!(prompt, "上下文：\n正文：你好");
}

#[test]
fn render_prompt_replaces_global_context_placeholder() {
    let prompt = render_prompt("术语：{{global_context}}\n正文：{{text}}", "你好", "", "说吧 Fun-ASR", "").unwrap();
    assert_eq!(prompt, "术语：说吧 Fun-ASR\n正文：你好");
}

#[test]
fn render_prompt_replaces_hotwords_placeholder() {
    let prompt = render_prompt("热词：{{hotwords}}\n正文：{{text}}", "你好", "", "", "说吧 Kubernetes").unwrap();
    assert_eq!(prompt, "热词：说吧 Kubernetes\n正文：你好");
}

#[test]
fn placeholder_like_text_inside_untrusted_data_is_not_replaced_again() {
    let prompt = render_prompt(
        "上下文：{{active_app_context}}\n正文：{{text}}",
        "请保留 {{active_app_context}}",
        "应用：记事本",
        "",
        "",
    )
    .unwrap();
    assert_eq!(prompt, "上下文：应用：记事本\n正文：请保留 {{active_app_context}}");
}

#[test]
fn empty_template_is_rejected_and_template_is_trimmed() {
    assert_eq!(render_prompt("  \n", "x", "", "", "").unwrap_err(), "智能处理提示词不能为空");
    assert_eq!(render_prompt("  {{text}}  ", "x", "", "", "").unwrap(), "x");
    assert_eq!(replace_placeholders("a{b}c", &[("{b}", "1"), ("b", "2")]), "a1c");
    assert!(requires_active_app_context("{{active_app_context}}"));
    assert!(!requires_active_app_context("{{text}}"));
}

#[test]
fn final_text_removes_completed_thinking_block() {
    assert_eq!(
        final_text_from_output("<think>内部推理</think>\n整理后的正文").unwrap(),
        "整理后的正文"
    );
}

#[test]
fn final_text_rejects_unfinished_thinking_block() {
    let error = final_text_from_output("<think>还在推理，没有最终正文").unwrap_err();
    assert!(error.contains("未完成的思考过程"));
}

#[test]
fn final_text_rejects_thinking_without_final_answer() {
    let error = final_text_from_output("<think>内部推理</think>").unwrap_err();
    assert!(error.contains("没有返回可用的最终文本"));
}

#[test]
fn final_text_keeps_text_around_blocks_and_rejects_stray_close() {
    assert_eq!(final_text_from_output(" 前<think>x</think>后 ").unwrap(), "前后");
    assert!(final_text_from_output("答案</think>").is_err());
}

#[test]
fn provider_capabilities_follow_the_kind() {
    assert!(is_plugin_llm("plugin:demo", &["asr".into(), "llm".into()]));
    assert!(!is_plugin_llm("plugin:demo", &["asr".into()]));
    assert!(!is_plugin_llm("llm:demo", &["llm".into()]));
    assert!(!supports_explicit_reasoning_zero("llm:kimi"));
    assert!(!supports_explicit_reasoning_zero("llm:bigmodel"));
    assert!(supports_explicit_reasoning_zero("llm:deepseek"));
    assert!(supports_explicit_reasoning_zero("plugin:kimi"));
    assert!(supports_web_search("llm:deepseek") && supports_web_search("llm:bailian"));
    assert!(!supports_web_search("llm:groq") && !supports_web_search("volcengine"));
}

#[test]
fn plugin_llm_resolution_reports_each_missing_piece() {
    let ok: Result<(u8, u16), String> = resolve_plugin_llm("Demo", "plugin-a", "m1", Ok(Some(1u8)), Some(2u16));
    assert_eq!(ok.unwrap(), (1, 2));
    let no_model = resolve_plugin_llm::<u8, u16>("Demo", "plugin-a", "", Ok(Some(1)), Some(2));
    assert_eq!(no_model.unwrap_err(), "请先为 Demo 选择模型");
    let no_runtime = resolve_plugin_llm::<u8, u16>("Demo", "plugin-a", "m1", Ok(None), Some(2));
    assert_eq!(no_runtime.unwrap_err(), "插件供应商 plugin-a 没有 JavaScript runtime");
    let no_module = resolve_plugin_llm::<u8, u16>("Demo", "plugin-a", "m1", Ok(Some(1)), None);
    assert_eq!(no_module.unwrap_err(), "插件 plugin-a 未注册模型 m1 的 LLM module");
    let registry = resolve_plugin_llm::<u8, u16>("Demo", "plugin-a", "m1", Err("locked".into()), None);
    assert_eq!(registry.unwrap_err(), "locked");
}

#[test]
fn llm_routes_and_availability() {
    assert_eq!(llm_route("llm:groq", &[]), LlmRoute::Groq);
    assert_eq!(llm_route("plugin:x", &["llm".to_string()]), LlmRoute::Plugin);
    assert_eq!(llm_route("plugin:x", &["asr".to_string()]), LlmRoute::Client);
    assert_eq!(llm_route("llm:openai", &[]), LlmRoute::Client);
    assert_eq!(
        validate_available_for(LlmRoute::Groq, Ok(()), false, Ok(()), Ok(())).unwrap_err(),
        "请先为 Groq 设置 API Key"
    );
    assert!(validate_available_for(LlmRoute::Groq, Ok(()), true, Err("x".into()), Err("y".into())).is_ok());
    assert_eq!(validate_available_for(LlmRoute::Plugin, Ok(()), true, Err("p".into()), Ok(())).unwrap_err(), "p");
    assert_eq!(validate_available_for(LlmRoute::Client, Ok(()), true, Ok(()), Err("c".into())).unwrap_err(), "c");
}

fn demo_model(reasoning_effort: &str, temperature_permille: Option<u32>, max_tokens: Option<u32>) -> LlmModelConfig {
    LlmModelConfig {
        name: "demo".to_string(),
        source: LlmModelSource::Remote,
        availability: LlmModelAvailability::Available,
        reasoning_effort: reasoning_effort.to_string(),
        temperature_permille,
        max_tokens,
    }
}

fn options_for(kind: &str, reasoning_effort: &str) -> ChatSettings {
    chat_settings(kind, Some(&demo_model(reasoning_effort, Some(100), None)), "demo", None).unwrap()
}

#[test]
fn model_options_apply_reasoning_temperature_and_max_tokens() {
    let model = demo_model("high", None, Some(512));
    let options = chat_settings("llm:groq", Some(&model), "demo", None).unwrap();
    assert_eq!(options.temperature_permille, None);
    assert_eq!(options.max_tokens, Some(512));
    assert_eq!(options.reasoning, Some(Reasoning::High));
}

#[test]
fn scenario_defaults_turn_thinking_off_or_on_without_overriding_explicit_choice() {
    let model = demo_model("auto", Some(100), None);
    let disabled = chat_settings("llm:deepseek", Some(&model), "demo", Some("zero")).unwrap();
    assert!(disabled.reasoning.is_none());
    assert_eq!(disabled.thinking, Some(false));
    let enabled = chat_settings("llm:deepseek", Some(&model), "demo", Some("high")).unwrap();
    assert_eq!(enabled.reasoning, Some(Reasoning::High));
    assert_eq!(enabled.thinking, Some(true));
}

#[test]
fn web_search_is_limited_to_responses_adapters_with_documented_support() {
    assert!(supports_web_search("llm:deepseek"));
    assert!(supports_web_search("llm:bailian"));
    assert!(!supports_web_search("llm:kimi"));
    assert!(!supports_web_search("llm:custom"));
}

#[test]
fn invalid_model_options_are_rejected() {
    let model = demo_model("auto", Some(2500), None);
    assert!(chat_settings("llm:groq", Some(&model), "demo", None).unwrap_err().contains("0 到 2"));
    let model = demo_model("auto", None, Some(0));
    assert_eq!(chat_settings("llm:groq", Some(&model), "demo", None).unwrap_err(), "最大输出 Token 必须是正整数");
    let model = demo_model("extreme", None, None);
    assert_eq!(chat_settings("llm:groq", Some(&model), "demo", None).unwrap_err(), "不支持的推理强度：extreme");
    assert_eq!(chat_settings("llm:groq", None, "demo", None).unwrap_err(), "当前模型 demo 的配置不存在");
}

#[test]
fn deepseek_zero_uses_thinking_switch_without_openai_reasoning_effort() {
    let options = options_for("llm:deepseek", "zero");
    assert!(options.reasoning.is_none());
    assert_eq!(options.thinking, Some(false));
}

#[test]
fn deepseek_explicit_reasoning_enables_thinking() {
    let options = options_for("llm:deepseek", "high");
    assert_eq!(options.reasoning, Some(Reasoning::High));
    assert_eq!(options.thinking, Some(true));
}

#[test]
fn deepseek_auto_keeps_provider_defaults() {
    let options = options_for("llm:deepseek", "auto");
    assert!(options.reasoning.is_none());
    assert!(options.thinking.is_none());
}

#[test]
fn non_deepseek_zero_keeps_generic_reasoning_option() {
    let options = options_for("llm:openai", "zero");
    assert_eq!(options.reasoning, Some(Reasoning::Zero));
    assert!(options.thinking.is_none());
}

#[test]
fn zero_is_ignored_where_thinking_cannot_be_switched_off() {
    let options = options_for("llm:kimi", "zero");
    assert!(options.reasoning.is_none());
    assert_eq!(options.temperature_permille, Some(100));
}

#[test]
fn deepseek_uses_longer_request_timeout() {
    let auto = demo_model("auto", Some(100), None);
    let zero = demo_model("zero", Some(100), None);
    assert_eq!(request_timeout_secs("llm:deepseek", Some(&auto), None), 90);
    assert_eq!(request_timeout_secs("llm:deepseek", Some(&zero), None), 30);
    assert_eq!(request_timeout_secs("llm:openai", Some(&auto), None), 30);
    assert_eq!(request_timeout_secs("llm:deepseek", Some(&auto), Some("zero")), 30);
}

#[test]
fn assistant_json_mode_does_not_override_other_models_reasoning() {
    let options = structured_settings(options_for("llm:openai", "high"));
    assert_eq!(options.reasoning, Some(Reasoning::High));
    assert!(options.json_mode);
}

fn fold(events: Vec<StreamEvent>) -> (String, String) {
    let mut output = String::new();
    let mut reasoning = String::new();
    for event in events {
        apply_stream_event(&mut output, &mut reasoning, event);
    }
    (output, reasoning)
}

#[test]
fn stream_pieces_are_appended_and_the_end_fills_only_what_is_missing() {
    let (output, reasoning) = fold(vec![
        StreamEvent::Other,
        StreamEvent::ReasoningChunk("想".into()),
        StreamEvent::Chunk("你".into()),
        StreamEvent::Chunk("好".into()),
        StreamEvent::End(Some("别的".into()), Some("另一个".into())),
    ]);
    assert_eq!(output, "你好");
    assert_eq!(reasoning, "想");
    let (output, reasoning) = fold(vec![StreamEvent::End(Some("捕获".into()), Some(" 推理 ".into()))]);
    assert_eq!(output, "捕获");
    assert_eq!(reasoning, " 推理 ");
    assert_eq!(finish_stream(&output, &reasoning), Ok(("捕获".to_string(), "推理".to_string())));
}

#[test]
fn a_finished_stream_needs_a_final_text() {
    assert!(finish_stream("<think>仍在思考", "").is_err());
    assert!(finish_stream("   ", "r").is_err());
    assert_eq!(finish_stream("<think>a</think> 答案 ", ""), Ok(("答案".to_string(), String::new())));
}

#[test]
fn chat_messages_replay_the_history_between_system_and_new_prompt() {
    let history = vec![("问一".to_string(), "答一".to_string()), ("问二".to_string(), "答二".to_string())];
    let messages = chat_messages("系统", &history, "新问题");
    let got: Vec<(ChatRole, String)> = messages.into_iter().map(|m| (m.role, m.content)).collect();
    assert_eq!(
        got,
        vec![
            (ChatRole::System, "系统".to_string()),
            (ChatRole::User, "问一".to_string()),
            (ChatRole::Assistant, "答一".to_string()),
            (ChatRole::User, "问二".to_string()),
            (ChatRole::Assistant, "答二".to_string()),
            (ChatRole::User, "新问题".to_string()),
        ]
    );
    assert_eq!(chat_messages("s", &[], "u").len(), 2);
}
