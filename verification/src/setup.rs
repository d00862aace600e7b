//! First-run setup checks: microphone, system permissions, recognition provider, shortcut.
use crate::text::{chars_of, decimal, decimal_string, exec_is_blank, is_blank, push_all, str_eq, string_of};
use vstd::prelude::*;

verus! {

pub const ONBOARDING_VERSION: u32 = 1;

#[derive(Debug)]
pub struct SetupCheckResult {
    pub id: String,
    pub status: String,
    pub title: String,
    pub message: String,
    pub action: Option<String>,
}

pub open spec fn opt_view(o: Option<String>) -> Option<Seq<char>> {
    match o {
        Some(s) => Some(s@),
        None => None,
    }
}

pub open spec fn opt_str_view(o: Option<&str>) -> Option<Seq<char>> {
    match o {
        Some(s) => Some(s@),
        None => None,
    }
}

pub open spec fn result_view(r: SetupCheckResult) -> (Seq<char>, Seq<char>, Seq<char>, Seq<char>, Option<Seq<char>>) {
    (r.id@, r.status@, r.title@, r.message@, opt_view(r.action))
}

pub fn check(id: &str, status: &str, title: &str, message: String, action: Option<&str>) -> (r: SetupCheckResult)
    ensures result_view(r) == (id@, status@, title@, message@, opt_str_view(action)),
{
    SetupCheckResult {
        id: String::from_str(id),
        status: String::from_str(status),
        title: String::from_str(title),
        message,
        action: match action {
            Some(a) => Some(String::from_str(a)),
            None => None,
        },
    }
}

fn concat3(a: &str, n: u64, b: &str) -> (s: String)
    ensures s@ == a@ + decimal(n as nat) + b@,
{
    let mut v = chars_of(a);
    let d = crate::text::decimal_chars(n);
    push_all(&mut v, d.as_slice());
    let t = chars_of(b);
    push_all(&mut v, t.as_slice());
    string_of(v.as_slice())
}

/// Microphone readiness from the input-device listing (its count, or the listing error).
pub fn microphone_check(inputs: Result<u64, String>) -> (r: SetupCheckResult)
    ensures
        match inputs {
            Ok(n) => if n > 0 {
                result_view(r) == ("microphone"@, "ready"@, "麦克风"@, "检测到 "@ + decimal(n as nat) + " 个输入设备"@, None::<Seq<char>>)
            } else {
                result_view(r) == ("microphone"@, "blocked"@, "麦克风"@, "没有检测到输入设备"@, Some("audio"@))
            },
            Err(e) => result_view(r) == ("microphone"@, "blocked"@, "麦克风"@, e@, Some("audio"@)),
        },
{
    match inputs {
        Ok(n) => if n > 0 {
            check("microphone", "ready", "麦克风", concat3("检测到 ", n, " 个输入设备"), None)
        } else {
            check("microphone", "blocked", "麦克风", String::from_str("没有检测到输入设备"), Some("audio"))
        },
        Err(e) => check("microphone", "blocked", "麦克风", e, Some("audio")),
    }
}

#[derive(Clone, Copy, Debug, PartialEq, Eq, Structural)]
pub enum Platform {
    MacOs,
    Windows,
    Other,
}

/// System permissions: on macOS accessibility is required and screen recording is needed
/// for window OCR; Windows needs nothing extra; other platforms are not supported yet.
pub fn permission_check(platform: Platform, accessibility: bool, screen_recording: bool) -> (r: SetupCheckResult)
    ensures
        platform == Platform::MacOs ==> result_view(r) == (
            "permissions"@,
            if accessibility { "ready"@ } else { "blocked"@ },
            "系统权限"@,
            if accessibility && screen_recording { "辅助功能与屏幕录制权限均已授予"@ }
            else if accessibility { "辅助功能可用；启用窗口 OCR 时还需要屏幕录制权限"@ }
            else { "需要在系统设置中授予辅助功能权限"@ },
            if accessibility { None::<Seq<char>> } else { Some("permissions"@) },
        ),
        platform == Platform::Windows ==> result_view(r) == ("permissions"@, "ready"@, "系统权限"@,
            "Windows 基础听写无需额外辅助功能授权"@, None::<Seq<char>>),
        platform == Platform::Other ==> result_view(r) == ("permissions"@, "warning"@, "系统权限"@,
            "当前平台未纳入本阶段支持范围"@, None::<Seq<char>>),
{
    match platform {
        Platform::MacOs => {
            let message = if accessibility && screen_recording {
                String::from_str("辅助功能与屏幕录制权限均已授予")
            } else if accessibility {
                String::from_str("辅助功能可用；启用窗口 OCR 时还需要屏幕录制权限")
            } else {
                String::from_str("需要在系统设置中授予辅助功能权限")
            };
            check(
                "permissions",
                if accessibility { "ready" } else { "blocked" },
                "系统权限",
                message,
                if accessibility { None } else { Some("permissions") },
            )
        },
        Platform::Windows => check("permissions", "ready", "系统权限",
            String::from_str("Windows 基础听写无需额外辅助功能授权"), None),
        Platform::Other => check("permissions", "warning", "系统权限",
            String::from_str("当前平台未纳入本阶段支持范围"), None),
    }
}

/// What the provider check reads of a configured provider.
#[derive(Debug)]
pub struct ProviderSummary {
    pub enabled: bool,
    pub capabilities: Vec<String>,
    pub auth_kind: String,
    pub api_key: Option<String>,
    pub kind: String,
}

pub open spec fn has_asr(p: ProviderSummary) -> bool {
    p.capabilities@.map_values(|s: String| s@).contains("asr"@)
}

/// An enabled recognition provider is usable when it needs no key, has one, or is a plugin.
pub open spec fn provider_ready(p: ProviderSummary) -> bool {
    let requires_key = p.auth_kind@ == "api-key"@;
    let has_key = p.api_key matches Some(k) && !is_blank(k@);
    !requires_key || has_key || (p.kind@.len() >= 7 && p.kind@.take(7) == "plugin:"@)
}

pub open spec fn count_providers(ps: Seq<ProviderSummary>, ready: bool) -> nat
    decreases ps.len(),
{
    if ps.len() == 0 {
        0
    } else {
        let p = ps.last();
        count_providers(ps.drop_last(), ready)
            + (if p.enabled && has_asr(p) && provider_ready(p) == ready { 1nat } else { 0nat })
    }
}

fn summary_has_asr(p: &ProviderSummary) -> (b: bool)
    ensures b == has_asr(*p),
{
    let ghost caps = p.capabilities@.map_values(|s: String| s@);
    let mut i: usize = 0;
    while i < p.capabilities.len()
        invariant
            i <= p.capabilities@.len(),
            caps == p.capabilities@.map_values(|s: String| s@),
            forall|j: int| 0 <= j < i ==> caps[j] != "asr"@,
        decreases p.capabilities@.len() - i,
    {
        if str_eq(p.capabilities[i].as_str(), "asr") {
            proof { assert(caps[i as int] == "asr"@); }
            return true;
        }
        i += 1;
    }
    false
}

fn summary_ready(p: &ProviderSummary) -> (b: bool)
    ensures b == provider_ready(*p),
{
    let requires_key = str_eq(p.auth_kind.as_str(), "api-key");
    let has_key = match &p.api_key {
        Some(k) => !exec_is_blank(k.as_str()),
        None => false,
    };
    let kind = chars_of(p.kind.as_str());
    let prefix = chars_of("plugin:");
    proof { reveal_strlit("plugin:"); }
    let plugin = kind.len() >= 7 && crate::text::str_chars_eq(&kind.as_slice()[0..7], prefix.as_slice());
    proof {
        if kind@.len() >= 7 {
            assert(kind@.take(7) =~= kind@.subrange(0, 7));
        }
    }
    !requires_key || has_key || plugin
}

/// Recognition readiness from the enabled providers with the `asr` capability.
pub fn provider_check(profiles: &[ProviderSummary]) -> (r: SetupCheckResult)
    ensures
        ({
            let configured = count_providers(profiles@, true);
            let incomplete = count_providers(profiles@, false);
            &&& configured > 0 ==> result_view(r) == ("provider"@, "ready"@, "识别能力"@,
                "检测到 "@ + decimal(configured) + " 个已启用的语音识别服务或本地引擎"@, None::<Seq<char>>)
            &&& configured == 0 && incomplete > 0 ==> result_view(r) == ("provider"@, "blocked"@, "识别能力"@,
                "检测到 "@ + decimal(incomplete) + " 个已启用服务，但认证信息尚未配置完整"@, Some("model"@))
            &&& configured == 0 && incomplete == 0 ==> result_view(r) == ("provider"@, "blocked"@, "识别能力"@,
                "尚未启用语音识别服务或本地模型"@, Some("model"@))
        }),
{
    let mut configured: u64 = 0;
    let mut incomplete: u64 = 0;
    let mut i: usize = 0;
    while i < profiles.len()
        invariant
            i <= profiles@.len(),
            configured == count_providers(profiles@.take(i as int), true),
            incomplete == count_providers(profiles@.take(i as int), false),
            configured + incomplete <= i,
        decreases profiles@.len() - i,
    {
        proof {
            assert(profiles@.take(i + 1).drop_last() =~= profiles@.take(i as int));
            assert(profiles@.take(i + 1).last() == profiles@[i as int]);
        }
        let p = &profiles[i];
        if p.enabled && summary_has_asr(p) {
            if summary_ready(p) {
                configured = configured + 1;
            } else {
                incomplete = incomplete + 1;
            }
        }
        i += 1;
    }
    proof { assert(profiles@.take(profiles@.len() as int) =~= profiles@); }
    if configured > 0 {
        check("provider", "ready", "识别能力", concat3("检测到 ", configured, " 个已启用的语音识别服务或本地引擎"), None)
    } else if incomplete > 0 {
        check("provider", "blocked", "识别能力", concat3("检测到 ", incomplete, " 个已启用服务，但认证信息尚未配置完整"), Some("model"))
    } else {
        check("provider", "blocked", "识别能力", String::from_str("尚未启用语音识别服务或本地模型"), Some("model"))
    }
}

/// The main dictation shortcut; `None` when its settings could not be read.
pub fn shortcut_check(key_code: Option<&str>) -> (r: SetupCheckResult)
    ensures
        match key_code {
            Some(k) => if !is_blank(k@) {
                result_view(r) == ("shortcut"@, "ready"@, "主快捷键"@, "已设置 "@ + k@, None::<Seq<char>>)
            } else {
                result_view(r) == ("shortcut"@, "blocked"@, "主快捷键"@, "主听写快捷键尚未设置"@, Some("keys"@))
            },
            None => result_view(r) == ("shortcut"@, "blocked"@, "主快捷键"@, "读取快捷键配置失败"@, Some("keys"@)),
        },
{
    match key_code {
        Some(k) => if !exec_is_blank(k) {
            let mut v = chars_of("已设置 ");
            let kc = chars_of(k);
            push_all(&mut v, kc.as_slice());
            check("shortcut", "ready", "主快捷键", string_of(v.as_slice()), None)
        } else {
            check("shortcut", "blocked", "主快捷键", String::from_str("主听写快捷键尚未设置"), Some("keys"))
        },
        None => check("shortcut", "blocked", "主快捷键", String::from_str("读取快捷键配置失败"), Some("keys")),
    }
}

/// The four setup checks in display order.
pub fn collect(
    inputs: Result<u64, String>,
    platform: Platform,
    accessibility: bool,
    screen_recording: bool,
    profiles: &[ProviderSummary],
    key_code: Option<&str>,
) -> (checks: Vec<SetupCheckResult>)
    ensures
        checks@.len() == 4,
        checks@[0].id@ == "microphone"@,
        checks@[1].id@ == "permissions"@,
        checks@[2].id@ == "provider"@,
        checks@[3].id@ == "shortcut"@,
{
    let mut checks = Vec::new();
    checks.push(microphone_check(inputs));
    checks.push(permission_check(platform, accessibility, screen_recording));
    checks.push(provider_check(profiles));
    checks.push(shortcut_check(key_code));
    checks
}

} // verus!
