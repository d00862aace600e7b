//! Application settings: the schema version, which settings domain an update names,
//! and the checks of a custom cue sound handed over as a `data:` URL.
use vstd::prelude::*;
use base64::Engine;
use crate::subtitles::{byte_len, prefix_bytes};
use crate::json::{get_member, member, member_text, Json};
use crate::text::{chars_of, find, find_chars, str_eq, string_of, slice_to_vec};

verus! {

/// Version of the settings layout written today.
pub const SETTINGS_SCHEMA_VERSION: u32 = 1;

/// The schema version a settings file without one is read as.
pub fn schema_version() -> (v: u32)
    ensures
        v == SETTINGS_SCHEMA_VERSION,
{
    SETTINGS_SCHEMA_VERSION
}

/// The settings domains an update may replace.
#[derive(Clone, Copy, Debug, PartialEq, Eq, Structural)]
pub enum SettingsDomain {
    Dictation,
    Subtitles,
    Comparison,
    Customization,
    Theme,
}

/// The domain an update names, or the error for an unknown one.
pub fn settings_domain(domain: &str) -> (r: Result<SettingsDomain, String>)
    ensures
        domain@ == "dictation"@ ==> r == Ok::<SettingsDomain, String>(SettingsDomain::Dictation),
        domain@ == "subtitles"@ ==> r == Ok::<SettingsDomain, String>(SettingsDomain::Subtitles),
        domain@ == "comparison"@ ==> r == Ok::<SettingsDomain, String>(SettingsDomain::Comparison),
        domain@ == "customization"@ ==> r == Ok::<SettingsDomain, String>(SettingsDomain::Customization),
        domain@ == "theme"@ ==> r == Ok::<SettingsDomain, String>(SettingsDomain::Theme),
        r is Err <==> !(domain@ == "dictation"@ || domain@ == "subtitles"@ || domain@ == "comparison"@
            || domain@ == "customization"@ || domain@ == "theme"@),
        r matches Err(e) ==> e@ == "未知配置领域："@ + domain@,
{
    proof {
        reveal_strlit("dictation");
        reveal_strlit("subtitles");
        reveal_strlit("comparison");
        reveal_strlit("customization");
        reveal_strlit("theme");
        assert("dictation"@[0] != "subtitles"@[0]);
        assert("dictation"@[0] != "comparison"@[0]);
        assert("dictation"@[0] != "customization"@[0]);
        assert("subtitles"@[0] != "comparison"@[0]);
        assert("subtitles"@[0] != "customization"@[0]);
        assert("comparison"@[1] != "customization"@[1]);
    }
    if str_eq(domain, "dictation") {
        Ok(SettingsDomain::Dictation)
    } else if str_eq(domain, "subtitles") {
        Ok(SettingsDomain::Subtitles)
    } else if str_eq(domain, "comparison") {
        Ok(SettingsDomain::Comparison)
    } else if str_eq(domain, "customization") {
        Ok(SettingsDomain::Customization)
    } else if str_eq(domain, "theme") {
        Ok(SettingsDomain::Theme)
    } else {
        let mut message = chars_of("未知配置领域：");
        let d = chars_of(domain);
        crate::text::push_all(&mut message, d.as_slice());
        Err(string_of(message.as_slice()))
    }
}

/// What the standard base64 engine (RFC 4648 alphabet, padded) decodes `input` to, or
/// the text of its decoding error.
pub uninterp spec fn standard_decode(input: Seq<char>) -> Result<Seq<u8>, Seq<char>>;

/// `base64::engine::general_purpose::STANDARD.decode`, with the error as its display text.
#[verifier::external_body]
fn decode_base64(input: &str) -> (r: Result<Vec<u8>, String>)
    ensures
        match r {
            Ok(bytes) => standard_decode(input@) == Ok::<Seq<u8>, Seq<char>>(bytes@),
            Err(e) => standard_decode(input@) == Err::<Seq<u8>, Seq<char>>(e@),
        },
{
    match base64::engine::general_purpose::STANDARD.decode(input) {
        Ok(bytes) => Ok(bytes),
        Err(error) => Err(format!("{error}")),
    }
}

/// Largest cue `data:` URL accepted, in bytes.
pub const MAX_CUE_URL_BYTES: usize = 20971520;

/// Where a stored cue file lives and what it holds.
#[derive(Debug, PartialEq, Eq)]
pub struct CustomCueFile {
    pub relative_path: String,
    pub mime_type: String,
}

/// The MIME type of a `data:<mime>;base64` header, if it has that form.
pub open spec fn data_url_mime(header: Seq<char>) -> Option<Seq<char>> {
    if header.len() >= 12 && header.take(5) == "data:"@ && header.skip(header.len() - 7) == ";base64"@ {
        Some(header.subrange(5, header.len() - 7))
    } else {
        None
    }
}

/// The decoded cue: its file under the data root, its MIME type and its bytes; or why
/// it is refused. Checked in order: the position must be `start` or `end`, the URL at
/// most `MAX_CUE_URL_BYTES` bytes, contain a comma, have a `data:audio/...;base64`
/// header, and carry valid base64.
pub open spec fn decoded_cue(which: Seq<char>, data_url: Seq<char>) -> Result<(Seq<char>, Seq<char>, Seq<u8>), Seq<char>> {
    if which != "start"@ && which != "end"@ {
        Err("未知提示音位置"@)
    } else if byte_len(data_url) > MAX_CUE_URL_BYTES {
        Err("提示音数据超过 20 MiB"@)
    } else {
        match find(data_url, seq![',']) {
            None => Err("提示音 Data URL 无效"@),
            Some(comma) => match data_url_mime(data_url.take(comma)) {
                None => Err("提示音 MIME 类型无效"@),
                Some(mime) => if mime.len() < 6 || mime.take(6) != "audio/"@ {
                    Err("提示音 MIME 类型无效"@)
                } else {
                    match standard_decode(data_url.skip(comma + 1)) {
                        Err(e) => Err("提示音 Base64 无效："@ + e),
                        Ok(bytes) => Ok(("cues/"@ + which + ".audio"@, mime, bytes)),
                    }
                },
            },
        }
    }
}

fn has_prefix(s: &[char], p: &str) -> (b: bool)
    ensures
        b == (p@.len() <= s@.len() && s@.take(p@.len() as int) == p@),
{
    let pv = chars_of(p);
    if pv.len() > s.len() {
        return false;
    }
    let head = slice_to_vec(s, 0, pv.len());
    assert(head@ =~= s@.take(p@.len() as int));
    crate::text::str_chars_eq(head.as_slice(), pv.as_slice())
}

fn has_suffix(s: &[char], p: &str) -> (b: bool)
    ensures
        b == (p@.len() <= s@.len() && s@.skip(s@.len() - p@.len()) == p@),
{
    let pv = chars_of(p);
    if pv.len() > s.len() {
        return false;
    }
    let tail = slice_to_vec(s, s.len() - pv.len(), s.len());
    assert(tail@ =~= s@.skip(s@.len() - p@.len()));
    crate::text::str_chars_eq(tail.as_slice(), pv.as_slice())
}

/// Checks and decodes a custom cue handed over as a `data:` URL (see [`decoded_cue`]);
/// writing the file is left to the caller.
pub fn decode_cue(which: &str, data_url: &str) -> (r: Result<(CustomCueFile, Vec<u8>), String>)
    requires
        byte_len(data_url@) <= usize::MAX,
    ensures
        match decoded_cue(which@, data_url@) {
            Ok((path, mime, bytes)) => r matches Ok((file, b)) && file.relative_path@ == path && file.mime_type@
                == mime && b@ == bytes,
            Err(e) => r matches Err(m) && m@ == e,
        },
{
    proof {
        reveal_strlit("start");
        reveal_strlit("end");
    }
    if !str_eq(which, "start") && !str_eq(which, "end") {
        return Err(String::from_str("未知提示音位置"));
    }
    let url = chars_of(data_url);
    if prefix_bytes(url.as_slice(), url.len()) > MAX_CUE_URL_BYTES {
        proof { assert(url@.take(url@.len() as int) =~= url@); }
        return Err(String::from_str("提示音数据超过 20 MiB"));
    }
    proof { assert(url@.take(url@.len() as int) =~= url@); }
    let mut comma_pattern: Vec<char> = Vec::new();
    comma_pattern.push(',');
    assert(comma_pattern@ =~= seq![',']);
    let comma = match find_chars(url.as_slice(), comma_pattern.as_slice(), 0) {
        None => {
            return Err(String::from_str("提示音 Data URL 无效"));
        },
        Some(i) => i,
    };
    proof { crate::text::lemma_find_from(url@, seq![','], 0); }
    let header = slice_to_vec(url.as_slice(), 0, comma);
    assert(header@ =~= url@.take(comma as int));
    if header.len() < 12 || !has_prefix(header.as_slice(), "data:") || !has_suffix(header.as_slice(), ";base64") {
        proof {
            reveal_strlit("data:");
            reveal_strlit(";base64");
        }
        return Err(String::from_str("提示音 MIME 类型无效"));
    }
    proof {
        reveal_strlit("data:");
        reveal_strlit(";base64");
    }
    let mime = slice_to_vec(header.as_slice(), 5, header.len() - 7);
    if !has_prefix(mime.as_slice(), "audio/") {
        proof { reveal_strlit("audio/"); }
        return Err(String::from_str("提示音 MIME 类型无效"));
    }
    proof { reveal_strlit("audio/"); }
    let encoded = slice_to_vec(url.as_slice(), comma + 1, url.len());
    assert(encoded@ =~= url@.skip(comma + 1));
    let encoded_text = string_of(encoded.as_slice());
    match decode_base64(encoded_text.as_str()) {
        Err(e) => {
            let mut message = chars_of("提示音 Base64 无效：");
            let ev = chars_of(e.as_str());
            crate::text::push_all(&mut message, ev.as_slice());
            Err(string_of(message.as_slice()))
        },
        Ok(bytes) => {
            let mut path = chars_of("cues/");
            let w = chars_of(which);
            crate::text::push_all(&mut path, w.as_slice());
            let suffix = chars_of(".audio");
            crate::text::push_all(&mut path, suffix.as_slice());
            Ok((CustomCueFile { relative_path: string_of(path.as_slice()), mime_type: string_of(mime.as_slice()) }, bytes))
        },
    }
}

pub open spec fn not_object_message() -> Seq<char> {
    "配置必须是 JSON 对象"@
}

/// A settings domain must be a JSON object.
pub fn valid_object(value: &Json) -> (r: Result<(), String>)
    ensures
        value is Object ==> r is Ok,
        !(value is Object) ==> r is Err && r->Err_0@ == not_object_message(),
{
    match value {
        Json::Object(_) => Ok(()),
        _ => Err(String::from_str("配置必须是 JSON 对象")),
    }
}

/// Whether a settings domain still holds its initial, empty object.
pub fn is_empty_object(value: &Json) -> (b: bool)
    ensures
        b == (value matches Json::Object(m) && m@.len() == 0),
{
    match value {
        Json::Object(m) => m.len() == 0,
        _ => false,
    }
}

/// Whether the theme is still the default one: an object of exactly the members
/// `tone` = `dark` and `accent` = `#5199FF`.
pub open spec fn default_theme(value: Json) -> bool {
    &&& value is Object
    &&& value->Object_0@.len() == 2
    &&& member_text(value->Object_0@, "tone"@) == Some("dark"@)
    &&& member_text(value->Object_0@, "accent"@) == Some("#5199FF"@)
}

fn text_member(members: &Vec<(String, Json)>, key: &str, expected: &str) -> (b: bool)
    ensures
        b == (member_text(members@, key@) == Some(expected@)),
{
    match get_member(members, key) {
        Some(Json::Str(s)) => str_eq(s.as_str(), expected),
        _ => false,
    }
}

pub fn is_default_theme(value: &Json) -> (b: bool)
    ensures
        b == default_theme(*value),
{
    match value {
        Json::Object(m) => m.len() == 2 && text_member(m, "tone", "dark") && text_member(m, "accent", "#5199FF"),
        _ => false,
    }
}

/// A legacy import fills a domain only while it still holds its initial value; the
/// imported value must be a JSON object.
pub fn adopt_legacy(current: Json, untouched: bool, legacy: Option<Json>) -> (r: Result<Json, String>)
    ensures
        !untouched || legacy is None ==> r == Ok::<Json, String>(current),
        untouched && legacy is Some && legacy->0 is Object ==> r == Ok::<Json, String>(legacy->0),
        untouched && legacy is Some && !(legacy->0 is Object) ==> r is Err && r->Err_0@ == not_object_message(),
{
    if !untouched {
        return Ok(current);
    }
    match legacy {
        None => Ok(current),
        Some(v) => match valid_object(&v) {
            Ok(()) => Ok(v),
            Err(e) => Err(e),
        },
    }
}

/// The ids of the smart templates the dictation settings define.
pub open spec fn template_ids(prefs: Json) -> Set<Seq<char>> {
    match prefs {
        Json::Object(m) => match member(m@, "smartTemplates"@) {
            Some(Json::Array(ts)) => Set::new(
                |id: Seq<char>| exists|i: int| 0 <= i < ts@.len() && #[trigger] template_id(ts@[i]) == Some(id),
            ),
            _ => Set::empty(),
        },
        _ => Set::empty(),
    }
}

pub open spec fn template_id(t: Json) -> Option<Seq<char>> {
    match t {
        Json::Object(m) => member_text(m@, "id"@),
        _ => None,
    }
}

fn template_id_of(t: &Json) -> (r: Option<&String>)
    ensures
        match template_id(*t) {
            Some(id) => r matches Some(s) && s@ == id,
            None => r is None,
        },
{
    match t {
        Json::Object(m) => match get_member(m, "id") {
            Some(Json::Str(s)) => Some(s),
            _ => None,
        },
        _ => None,
    }
}

/// Shortcut profiles that refer to a template which no longer exists fall back to
/// inheriting the scene's template. `refs` holds each profile's template reference.
pub fn prune_template_references(refs: &mut Vec<Option<String>>, prefs: &Json)
    ensures
        final(refs)@.len() == old(refs)@.len(),
        forall|i: int| 0 <= i < old(refs)@.len() ==> #[trigger] final(refs)@[i] == (match old(refs)@[i] {
            Some(id) => if template_ids(*prefs).contains(id@) { old(refs)@[i] } else { None },
            None => None,
        }),
{
    let empty: Vec<Json> = Vec::new();
    let templates: &Vec<Json> = match prefs {
        Json::Object(m) => match get_member(m, "smartTemplates") {
            Some(Json::Array(ts)) => ts,
            _ => &empty,
        },
        _ => &empty,
    };
    proof {
        assert forall|id: Seq<char>| template_ids(*prefs).contains(id) <==> exists|i: int|
            0 <= i < templates@.len() && #[trigger] template_id(templates@[i]) == Some(id) by {
        }
    }
    let n = refs.len();
    let mut k: usize = 0;
    while k < n
        invariant
            n == old(refs)@.len(),
            refs@.len() == n,
            k <= n,
            forall|id: Seq<char>| template_ids(*prefs).contains(id) <==> exists|i: int|
                0 <= i < templates@.len() && #[trigger] template_id(templates@[i]) == Some(id),
            forall|i: int| k <= i < n ==> refs@[i] == old(refs)@[i],
            forall|i: int| 0 <= i < k ==> #[trigger] refs@[i] == (match old(refs)@[i] {
                Some(id) => if template_ids(*prefs).contains(id@) { old(refs)@[i] } else { None },
                None => None,
            }),
        decreases n - k,
    {
        let keep = match &refs[k] {
            None => true,
            Some(id) => {
                let mut found = false;
                let mut t: usize = 0;
                while t < templates.len()
                    invariant
                        t <= templates@.len(),
                        found ==> exists|i: int| 0 <= i < templates@.len() && #[trigger] template_id(templates@[i]) == Some(id@),
                        !found ==> forall|i: int| 0 <= i < t ==> #[trigger] template_id(templates@[i]) != Some(id@),
                    decreases templates@.len() - t,
                {
                    match template_id_of(&templates[t]) {
                        Some(tid) => {
                            if str_eq(tid.as_str(), id.as_str()) {
                                found = true;
                            }
                        },
                        None => {},
                    }
                    t += 1;
                }
                found
            },
        };
        if !keep {
            refs.set(k, None);
        }
        k += 1;
    }
}

} // verus!
