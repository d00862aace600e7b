use sayit::diff::{DELETE, EQUAL, INSERT};
use sayit::learning::{
    apply_active_rules, ascii_token_head, ascii_token_tail, build_context, expand_single_ascii_token,
    has_sensitive_content, is_format_char, is_punctuation_char, match_is_protected, normalize_rule_text,
    replace_once_safe, LearningContext, LearningRule, PreferenceProfile, ReplacementCandidate,
    classify_correction, correction_plan, correction_shape, hash_key, kind_name, status_name, CorrectionKind,
    LearningStatus, json_candidate, summary_available, summary_evidence_check, summary_scope,
    validate_preference_profile, provider_is_local, overview_profiles, summary_prompt, group_changes,
};
use sayit::json::Json;

#[test]
fn replacement_skips_urls_and_latin_word_internals() {
    assert!(replace_once_safe("https://openai.example", "openai", "OpenAI").is_none());
    assert!(replace_once_safe("`openai`", "openai", "OpenAI").is_none());
    assert!(replace_once_safe("myopenaiapp", "openai", "OpenAI").is_none());
    assert_eq!(
        replace_once_safe("使用 openai", "openai", "OpenAI").as_deref(),
        Some("使用 OpenAI")
    );
}

#[test]
fn normalization_only_changes_rule_key_form() {
    assert_eq!(normalize_rule_text("  OpenAI   Team "), "openai team");
}

#[test]
fn replacement_skips_protected_match_and_takes_the_next_one() {
    assert_eq!(
        replace_once_safe("`openai` 和 openai", "openai", "OpenAI").as_deref(),
        Some("`openai` 和 OpenAI")
    );
    assert_eq!(replace_once_safe("abc", "x", "y"), None);
}

#[test]
fn sensitive_content_detects_links_mail_and_long_numbers() {
    assert!(has_sensitive_content("see HTTPS://x.y"));
    assert!(has_sensitive_content("a@example.com 错"));
    assert!(!has_sensitive_content("@example.com"));
    assert!(has_sensitive_content("账号 123456"));
    assert!(has_sensitive_content("(123) 456"));
    assert!(!has_sensitive_content("12345a6"));
    assert!(!has_sensitive_content("你好 world"));
}

#[test]
fn character_classes_and_tokens() {
    assert!(is_format_char('\n') && is_format_char('\u{3000}'));
    assert!(!is_format_char('a'));
    assert!(is_punctuation_char('，') && is_punctuation_char(',') && is_punctuation_char('。'));
    assert!(!is_punctuation_char('字'));
    assert_eq!(ascii_token_tail("请联系open_ai"), "open_ai");
    assert_eq!(ascii_token_head("AI团队"), "AI");
    assert!(match_is_protected("my openai", 3, 9, "openai") == false);
    assert!(match_is_protected("myopenai", 2, 8, "openai"));
}

#[test]
fn protection_takes_byte_offsets_of_the_match() {
    assert!(match_is_protected("myopenaiapp", 2, 8, "openai"));
    assert!(match_is_protected("`openai`", 1, 7, "openai"));
    assert!(match_is_protected("https://openai.example", 8, 14, "openai"));
    let text = "使用 openai";
    let start = text.find("openai").unwrap();
    assert_eq!(start, 7);
    assert!(!match_is_protected(text, start, start + 6, "openai"));
    assert!(match_is_protected("使用openai", 6, 12, "openai") == false);
    assert!(match_is_protected("使用 `openai`", 8, 14, "openai"));
}

#[test]
fn single_candidate_is_widened_to_the_whole_latin_word() {
    let mut groups = vec![ReplacementCandidate { before: "p".into(), after: "P".into() }];
    expand_single_ascii_token("use openai now", "use oPenai now", &mut groups);
    assert_eq!(groups[0].before, "openai");
    assert_eq!(groups[0].after, "oPenai");
    let mut two = vec![
        ReplacementCandidate { before: "a".into(), after: "b".into() },
        ReplacementCandidate { before: "c".into(), after: "d".into() },
    ];
    expand_single_ascii_token("ac", "bd", &mut two);
    assert_eq!(two[0].before, "a");
}

fn rule(id: &str, before: &str, after: &str, scope: &str, app: &str, confirmed: u32) -> LearningRule {
    LearningRule {
        id: id.into(),
        pair_key: format!("{before}->{after}"),
        before_text: before.into(),
        after_text: after.into(),
        app_name: app.into(),
        scope: scope.into(),
        origin: "observed".into(),
        status: "active".into(),
        evidence_count: 2,
        confirmed_count: confirmed,
        negative_count: 0,
        last_used_at: None,
        hotword_suggested: false,
    }
}

#[test]
fn active_rules_apply_in_priority_order_without_ping_pong() {
    let rules = vec![
        rule("a", "开放AI", "OpenAI", "global", "", 0),
        rule("b", "OpenAI", "开放AI", "app", "Notes", 1),
        rule("c", "团队", "小组", "app", "Mail", 5),
    ];
    let applied = apply_active_rules(true, &rules, "开放AI团队", "notes");
    assert_eq!(applied.text, "OpenAI团队");
    assert_eq!(applied.rule_ids, vec!["a".to_string()]);
    let disabled = apply_active_rules(false, &rules, "开放AI团队", "Notes");
    assert_eq!(disabled.text, "开放AI团队");
    assert!(disabled.rule_ids.is_empty());
}

#[test]
fn context_uses_at_most_three_safe_rules_and_active_profile() {
    let rules = vec![
        rule("1", "一", "壹", "global", "", 0),
        rule("2", "二", "贰", "global", "", 0),
        rule("3", "www.二", "贰", "global", "", 0),
        rule("4", "三", "叁", "global", "", 0),
        rule("5", "四", "肆", "global", "", 0),
    ];
    let profiles = vec![PreferenceProfile {
        id: "p".into(),
        scope: "global".into(),
        app_name: String::new(),
        summary_text: "简洁".into(),
        profile_json: "{}".into(),
        status: "active".into(),
        sample_count: 10,
        generation_method: "llm".into(),
        created_at: 0,
        confirmed_at: None,
    }];
    let context = build_context(true, false, true, &rules, &profiles, "一二三四 www.二", "Notes");
    let befores: Vec<_> = context.exact_corrections.iter().map(|e| e.before.as_str()).collect();
    assert_eq!(befores, vec!["一", "二", "三"]);
    assert_eq!(context.preference_summary.as_deref(), Some("简洁"));
    let none = build_context(true, false, false, &rules, &profiles, "一", "Notes");
    assert!(none.is_empty());
    let empty = LearningContext { exact_corrections: Vec::new(), preference_summary: None };
    assert!(empty.is_empty());
}

#[test]
fn localized_replacement_is_lexical() {
    let result = classify_correction("请联系开放AI团队处理这个问题", "请联系OpenAI团队处理这个问题");
    assert_eq!(kind_name(result.kind), "lexical");
    assert_eq!(result.candidates.len(), 1);
    assert_eq!(result.candidates[0].before, "开放AI");
    assert_eq!(result.candidates[0].after, "OpenAI");
}

#[test]
fn punctuation_and_format_are_not_lexical() {
    assert_eq!(kind_name(classify_correction("你好,世界", "你好，世界").kind), "punctuation");
    assert_eq!(kind_name(classify_correction("你好 世界", "你好\n世界").kind), "format");
}

#[test]
fn large_rewrite_is_never_direct_rule() {
    assert_eq!(
        kind_name(classify_correction("请帮我看看", "麻烦你详细分析一下这个问题并给出完整建议").kind),
        "rewrite"
    );
}

#[test]
fn sensitive_content_is_rejected() {
    assert_eq!(kind_name(classify_correction("账号 123456", "账号 654321").kind), "sensitive");
    assert_eq!(kind_name(classify_correction("a@example.com 错", "a@example.com 对").kind), "sensitive");
}

#[test]
fn identical_or_blank_corrections_are_unknown() {
    assert_eq!(classify_correction("一样", "一样").kind, CorrectionKind::Unknown);
    assert_eq!(classify_correction("  ", "有字").kind, CorrectionKind::Unknown);
    assert!(classify_correction("一样", "一样").candidates.is_empty());
}

#[test]
fn exactly_seventy_percent_unchanged_is_not_lexical() {
    let shape = correction_shape("abcdefghij", "abcdefgXYZ");
    assert_eq!(shape.equal_chars, 7);
    assert_eq!(shape.total_chars, 10);
    assert_eq!(classify_correction("abcdefghij", "abcdefgXYZ").kind, CorrectionKind::Rewrite);
    assert_eq!(classify_correction("abcdefghijk", "abcdefghXYZ").kind, CorrectionKind::Lexical);
}

#[test]
fn rule_keys_hash_zero_terminated_parts() {
    assert_eq!(hash_key(&["a", "b"]), "8fb20ef63ced4145fc2e983ffe597d1dcff39154c3bf21f0fa9dde6a0c50fdc9");
    assert_eq!(hash_key(&["你好"]), "e70d900794918ed68aa91fc601b8890d0786ab65ea0318939be5c21a46d5c920");
}

#[test]
fn correction_plan_follows_confidence_and_scope() {
    let candidates = vec![ReplacementCandidate { before: "开放AI".into(), after: "OpenAI".into() }];
    let plan = correction_plan(
        true,
        CorrectionKind::Lexical,
        &candidates,
        "请联系开放AI",
        "请联系OpenAI",
        "WeChat",
        "manual",
        "confirmed",
        Some("global"),
    );
    assert_eq!(plan.status, LearningStatus::Active);
    assert_eq!(status_name(plan.status), "active");
    assert_eq!(plan.scope.as_deref(), Some("global"));
    assert_eq!(plan.samples.len(), 1);
    assert_eq!(plan.samples[0].normalized_before, "开放ai");
    assert_eq!(plan.samples[0].normalized_after, "openai");
    assert_eq!(plan.samples[0].pair_key, hash_key(&["开放ai", "openai"]));
    assert_eq!(plan.samples[0].rule_key, hash_key(&[&plan.samples[0].pair_key, "global", "wechat"]));

    let plan = correction_plan(true, CorrectionKind::Lexical, &candidates, "a", "b", "x", "auto", "high", None);
    assert_eq!(plan.status, LearningStatus::Candidate);
    assert_eq!(plan.scope.as_deref(), Some("app"));

    let plan = correction_plan(true, CorrectionKind::Style, &candidates, "旧句子", "新句子", "x", "auto", "low", None);
    assert_eq!(plan.status, LearningStatus::Pending);
    assert_eq!(plan.samples.len(), 1);
    assert_eq!(plan.samples[0].before, "旧句子");

    let plan = correction_plan(true, CorrectionKind::Sensitive, &candidates, "a", "b", "x", "manual", "confirmed", None);
    assert_eq!(plan.status, LearningStatus::Rejected);
    assert!(plan.samples.is_empty());
    let plan = correction_plan(false, CorrectionKind::Lexical, &candidates, "a", "b", "x", "manual", "confirmed", None);
    assert_eq!(status_name(plan.status), "none");
    assert!(plan.scope.is_none());
}

fn obj(entries: Vec<(&str, Json)>) -> Json {
    Json::Object(entries.into_iter().map(|(k, v)| (k.to_string(), v)).collect())
}

fn text(s: &str) -> Json {
    Json::Str(s.to_string())
}

#[test]
fn preference_summary_requires_the_strict_bounded_contract() {
    let valid = obj(vec![
        ("summary", text("表达更简洁")),
        (
            "preferences",
            Json::Array(vec![obj(vec![
                ("instruction", text("删除重复措辞")),
                ("evidenceCount", Json::Number(Some(2))),
                ("confidence", text("high")),
            ])]),
        ),
        ("avoid", Json::Array(vec![text("不要扩写")])),
    ]);
    assert_eq!(validate_preference_profile(&valid, 3).unwrap(), "表达更简洁");
    let invalid = obj(vec![
        ("summary", text("表达更简洁")),
        (
            "preferences",
            Json::Array(vec![obj(vec![
                ("instruction", text("删除重复措辞")),
                ("evidenceCount", Json::Number(Some(4))),
                ("confidence", text("high")),
            ])]),
        ),
        ("avoid", Json::Array(vec![])),
    ]);
    assert!(validate_preference_profile(&invalid, 3).is_err());
}

#[test]
fn preference_summary_violations_are_named() {
    assert_eq!(validate_preference_profile(&Json::Null, 3).unwrap_err(), "偏好总结必须是 JSON 对象");
    assert_eq!(
        validate_preference_profile(&obj(vec![("extra", Json::Null)]), 3).unwrap_err(),
        "偏好总结包含未知字段"
    );
    assert_eq!(
        validate_preference_profile(&obj(vec![("summary", text("   "))]), 3).unwrap_err(),
        "偏好总结缺少有效 summary"
    );
    assert_eq!(
        validate_preference_profile(&obj(vec![("summary", text("ok"))]), 3).unwrap_err(),
        "偏好总结缺少 preferences 数组"
    );
    let item = |confidence: &str| {
        obj(vec![
            ("instruction", text("x")),
            ("evidenceCount", Json::Number(Some(1))),
            ("confidence", text(confidence)),
        ])
    };
    assert_eq!(
        validate_preference_profile(
            &obj(vec![("summary", text(" ok ")), ("preferences", Json::Array(vec![item("low")])), ("avoid", Json::Array(vec![]))]),
            3
        )
        .unwrap_err(),
        "偏好项 confidence 无效"
    );
    assert_eq!(
        validate_preference_profile(
            &obj(vec![("summary", text(" ok ")), ("preferences", Json::Array(vec![item("medium")])), ("avoid", Json::Array(vec![Json::Bool(true)]))]),
            3
        )
        .unwrap_err(),
        "偏好总结的 avoid 内容无效"
    );
    assert_eq!(
        validate_preference_profile(
            &obj(vec![("summary", text(" ok ")), ("preferences", Json::Array(vec![item("medium")])), ("avoid", Json::Array(vec![]))]),
            3
        )
        .unwrap(),
        "ok"
    );
}

#[test]
fn summary_requests_are_scoped_and_need_evidence() {
    assert_eq!(summary_scope("global", true, false).unwrap(), "");
    assert_eq!(summary_scope("app:WeChat", false, true).unwrap(), "WeChat");
    assert_eq!(summary_scope("team", true, true).unwrap_err(), "偏好总结作用域无效");
    assert_eq!(
        summary_scope("global", false, false).unwrap_err(),
        "当前模型需要联网；请明确确认本次允许发送脱敏的局部学习样本"
    );
    assert!(summary_evidence_check(10, 5).is_ok());
    assert!(summary_evidence_check(9, 5).is_err());
    assert!(summary_evidence_check(10, 4).is_err());
    assert!(summary_available(12, 6));
    assert!(!summary_available(-1, 6));
}

#[test]
fn json_is_taken_out_of_code_fences() {
    assert_eq!(json_candidate("  {\"a\":1}  "), "{\"a\":1}");
    assert_eq!(json_candidate("```json\n{\"a\":1}\n```"), "{\"a\":1}");
    assert_eq!(json_candidate("```\n[1]\n```"), "[1]");
    assert_eq!(json_candidate("```json {\"a\":1}"), "```json {\"a\":1}");
}

#[test]
fn lexical_rule_activates_after_two_histories_or_a_confirmation() {
    let one = sayit::learning::app_rule_plan("pair", "NotePad", None, 1, 0);
    assert!(!one.active);
    assert_eq!(one.status, "candidate");
    assert_eq!(one.scope, "app");
    assert_eq!(one.app_name, "NotePad");
    assert_eq!(one.origin, "observed");
    assert_eq!(one.rule_key, sayit::learning::hash_key(&["pair", "app", "notepad"]));
    let two = sayit::learning::app_rule_plan("pair", "NotePad", None, 2, 0);
    assert!(two.active);
    assert_eq!(two.status, "active");
    let confirmed = sayit::learning::app_rule_plan("pair", "NotePad", None, 1, 1);
    assert!(confirmed.active);
    assert_eq!(confirmed.origin, "manual");
    let global = sayit::learning::app_rule_plan("pair", "NotePad", Some("global"), 0, 0);
    assert!(global.active);
    assert_eq!((global.scope.as_str(), global.app_name.as_str()), ("global", ""));
    assert_eq!(global.rule_key, sayit::learning::global_rule_key("pair"));
    assert!(!sayit::learning::global_rule_wanted(false, 1));
    assert!(sayit::learning::global_rule_wanted(false, 2));
    assert!(sayit::learning::global_rule_wanted(true, 0));
}

fn provider(id: &str, field: &str, endpoint: &str) -> (String, Json) {
    (id.to_string(), Json::Object(vec![(field.to_string(), Json::Str(endpoint.to_string()))]))
}

#[test]
fn provider_locality_follows_the_endpoint_of_the_chosen_provider() {
    let profiles = vec![
        provider("ollama", "baseUrl", "http://localhost:11434"),
        provider("cloud", "endpoint", "https://api.example.com"),
        provider("lan", "apiUrl", "http://[::1]:8080/v1"),
        provider("loop", "endpoint", "http://127.0.0.1:1234"),
        provider("other", "url", "http://localhost:1"),
    ];
    assert!(provider_is_local("ollama", "cloud", &profiles));
    assert!(!provider_is_local("cloud", "ollama", &profiles));
    assert!(provider_is_local("lan", "cloud", &profiles));
    assert!(provider_is_local("loop", "cloud", &profiles));
    assert!(!provider_is_local("other", "cloud", &profiles));
    assert!(provider_is_local("default", "ollama", &profiles));
    assert!(provider_is_local("  ", "ollama", &profiles));
    assert!(!provider_is_local("", "cloud", &profiles));
    assert!(!provider_is_local("missing", "ollama", &profiles));
}

#[test]
fn normalizing_a_rule_text_twice_changes_nothing_more() {
    for value in ["  Open\tAI  团队\n", "ÄBC  def", "", "   ", "a\u{3000}B"] {
        let once = normalize_rule_text(value);
        assert_eq!(normalize_rule_text(&once), once);
        assert!(!once.starts_with(' ') && !once.ends_with(' ') && !once.contains("  "));
    }
    assert_eq!(normalize_rule_text("  Open\tAI  团队\n"), "open ai 团队");
}

fn profile_with_status(id: &str, status: &str) -> PreferenceProfile {
    PreferenceProfile {
        id: id.into(),
        scope: "global".into(),
        app_name: String::new(),
        summary_text: String::new(),
        profile_json: "{}".into(),
        status: status.into(),
        sample_count: 10,
        generation_method: "llm".into(),
        created_at: 0,
        confirmed_at: None,
    }
}

#[test]
fn overview_shows_the_first_active_and_the_first_draft_profile() {
    let profiles = vec![
        profile_with_status("a", "draft"),
        profile_with_status("b", "active"),
        profile_with_status("c", "draft"),
        profile_with_status("d", "active"),
    ];
    assert_eq!(overview_profiles(&profiles), (Some(1), Some(0)));
    assert_eq!(overview_profiles(&profiles[1..2]), (Some(0), None));
    assert_eq!(overview_profiles(&[]), (None, None));
}

#[test]
fn summary_request_lists_the_samples_after_its_instructions() {
    let samples = r#"[{"after":"b","application":"Notes","before":"a","kind":"lexical"}]"#;
    let expected = format!(
        "请仅根据以下已确认的局部修改，总结稳定、可复用的表达偏好。不要推断身份、职业或敏感属性。\n\
         返回严格 JSON：{{\"summary\":\"一句简洁偏好说明\",\"preferences\":[{{\"instruction\":\"偏好\",\"evidenceCount\":1,\"confidence\":\"high|medium\"}}],\"avoid\":[\"应避免的行为\"]}}。\n\
         样本：{}",
        samples
    );
    assert_eq!(summary_prompt(samples), expected);
}

fn change(tag: u8, value: &str) -> sayit::diff::Change {
    sayit::diff::Change { tag, value: value.to_string() }
}

#[test]
fn diff_changes_group_between_unchanged_text() {
    let changes = vec![
        change(EQUAL, "我们"),
        change(DELETE, "用"),
        change(INSERT, "使"),
        change(INSERT, "用"),
        change(EQUAL, "的"),
        change(INSERT, "新"),
    ];
    let (groups, unchanged) = group_changes(&changes);
    let pairs: Vec<(String, String)> = groups.into_iter().map(|g| (g.before, g.after)).collect();
    assert_eq!(pairs, vec![("用".to_string(), "使用".to_string()), (String::new(), "新".to_string())]);
    assert_eq!(unchanged, 3);
}
