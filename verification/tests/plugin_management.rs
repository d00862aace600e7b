use sayit::plugin_management::{plugin_action_route, plugin_profile_kind, PluginActionRoute};
use sayit::json::Json;
use sayit::plugin_management::{
    browser_cookie_names, is_sayit_extension, login_window_label, missing_required_cookies, now_epoch_ms,
    sayit_paths_from_args, select_package_paths, names_package,
};

#[test]
fn package_extension_ignores_ascii_case() {
    assert!(is_sayit_extension("sayit"));
    assert!(is_sayit_extension("SAYIT"));
    assert!(is_sayit_extension("SaYiT"));
    assert!(!is_sayit_extension("txt"));
    assert!(!is_sayit_extension("sayit2"));
}

fn arg(value: &str, canonical: Option<&str>) -> (String, Option<String>) {
    (value.to_string(), canonical.map(|c| c.to_string()))
}

#[test]
fn sayit_args_resolve_relative_paths_and_ignore_other_inputs() {
    // Each argument comes with its canonical path when it names an existing file.
    let paths = sayit_paths_from_args(vec![
        arg("say-it.exe", Some("/root/say-it.exe")),
        arg("demo.SAYIT", Some("/root/demo.SAYIT")),
        arg("missing.sayit", None),
        arg("notes.txt", Some("/root/notes.txt")),
    ]);
    assert_eq!(paths, vec!["/root/demo.SAYIT".to_string()]);
}

#[test]
fn sayit_args_deduplicate_the_same_file() {
    let paths = sayit_paths_from_args(vec![
        arg("/tmp/demo.sayit", Some("/tmp/demo.sayit")),
        arg("other.Sayit", Some("/tmp/other.Sayit")),
        arg("./demo.sayit", Some("/tmp/demo.sayit")),
        arg(".sayit", Some("/tmp/.sayit")),
        arg("archive.sayit.zip", Some("/tmp/archive.sayit.zip")),
    ]);
    assert_eq!(paths, vec!["/tmp/demo.sayit".to_string(), "/tmp/other.Sayit".to_string()]);
}

#[test]
fn package_selection_keeps_package_extensions_with_a_file() {
    let paths = select_package_paths(vec![
        (Some("SAYIT".to_string()), Some("/a".to_string())),
        (Some("txt".to_string()), Some("/b".to_string())),
        (None, Some("/c".to_string())),
        (Some("sayit".to_string()), None),
        (Some("sayit".to_string()), Some("/a".to_string())),
        (Some("sayit".to_string()), Some("/d".to_string())),
    ]);
    assert_eq!(paths, vec!["/a".to_string(), "/d".to_string()]);
}

#[test]
fn login_label_replaces_non_alphanumeric_characters() {
    assert_eq!(login_window_label("my.plugin/Login_1"), "plugin-login-my-plugin-Login-1");
    assert_eq!(login_window_label("插件"), "plugin-login---");
}

#[test]
fn epoch_clock_is_after_2020() {
    assert!(now_epoch_ms() > 1_577_836_800_000);
}

fn cookie(name: &str) -> Json {
    Json::Object(vec![("name".to_string(), Json::Str(name.to_string())), ("value".to_string(), Json::Str("v".into()))])
}

#[test]
fn cookie_names_are_sorted_and_unique() {
    let cookies = vec![cookie("session"), cookie("Auth"), Json::Null, cookie("session"), cookie("auth")];
    assert_eq!(browser_cookie_names(&cookies), vec!["Auth".to_string(), "auth".to_string(), "session".to_string()]);
}

#[test]
fn missing_cookies_keep_required_order() {
    let cookies = vec![cookie("b"), cookie("x")];
    let required = vec!["a".to_string(), "b".to_string(), "c".to_string()];
    assert_eq!(missing_required_cookies(&cookies, &required), vec!["a".to_string(), "c".to_string()]);
    assert!(missing_required_cookies(&cookies, &vec!["x".to_string()]).is_empty());
}

#[test]
fn plugin_actions_are_declared_trusted_and_routed() {
    let declared = vec!["openLogin".to_string(), "refreshQuota".to_string()];
    assert_eq!(plugin_action_route("openLogin", &declared, "trusted").unwrap(), PluginActionRoute::OpenLogin);
    assert_eq!(
        plugin_action_route("refreshQuota", &declared, "trusted").unwrap(),
        PluginActionRoute::Invoke("refreshQuota".to_string())
    );
    assert_eq!(plugin_action_route("syncSession", &declared, "trusted").unwrap_err(), "插件未声明操作：syncSession");
    assert_eq!(
        plugin_action_route("openLogin", &declared, "signed-untrusted").unwrap_err(),
        "插件签名密钥尚未受信任，请先在插件管理中确认发布者"
    );
    assert!(plugin_profile_kind("plugin:demo"));
    assert!(plugin_profile_kind("model-pack:whisper"));
    assert!(!plugin_profile_kind("llm:openai"));
}

#[test]
fn package_arguments_are_told_by_their_extension() {
    assert!(names_package("demo.SAYIT"));
    assert!(names_package("a.b.sayit"));
    assert!(!names_package("say-it.exe"));
    assert!(!names_package(".sayit"));
    assert!(!names_package("sayit"));
    assert!(!names_package("archive.sayit.zip"));
    assert!(!names_package(".."));
}
