//! Dictation history: usage metrics and the manual-correction pairing rule.
use crate::diff::{change_views, char_diff, diff_chars, DELETE, EQUAL, INSERT};
use crate::text::{
    chars_of, exec_is_ascii_alpha, exec_is_ws, find, find_chars, find_from, is_ascii_alpha, is_ws,
    lemma_find_from, matches_at, push_all, slice_to_vec, split_words, str_chars_eq, string_of, views, words,
};
use vstd::prelude::*;
use crate::json::{Json, member, get_member};
use crate::text::{trim, trim_chars, eq_ignore_ascii_case, exec_eq_ignore_ascii_case, is_blank, str_eq};

verus! {

pub const DEFAULT_PAGE_SIZE: u32 = 30;
pub const MAX_PAGE_SIZE: u32 = 100;

pub fn default_page_size() -> (n: u32)
    ensures n == DEFAULT_PAGE_SIZE,
{
    DEFAULT_PAGE_SIZE
}

/// Current time for history rows, in Unix seconds.
pub fn now_seconds() -> i64 {
    crate::clock::unix_seconds()
}

/// Whether history writes are paused while the data root moves.
#[derive(Debug)]
pub struct WriteGate {
    pub paused: bool,
}

pub open spec fn writes_paused_message() -> Seq<char> {
    "数据目录迁移后历史写入已暂停，请重启应用"@
}

/// History writes are refused while paused.
pub fn check_writes_open(gate: &WriteGate) -> (r: Result<(), String>)
    ensures
        gate.paused ==> r is Err && r->Err_0@ == writes_paused_message(),
        !gate.paused ==> r is Ok,
{
    if gate.paused {
        Err(String::from_str("数据目录迁移后历史写入已暂停，请重启应用"))
    } else {
        Ok(())
    }
}

/// Pauses history writes before the data root moves.
pub fn pause_for_data_root_migration(gate: &mut WriteGate)
    ensures final(gate).paused,
{
    gate.paused = true;
}

/// A failed data-root migration lets history writes continue.
pub fn resume_after_failed_data_root_migration(gate: &mut WriteGate)
    ensures !final(gate).paused,
{
    gate.paused = false;
}

pub open spec fn count_non_ws(s: Seq<char>) -> nat
    decreases s.len(),
{
    if s.len() == 0 { 0 } else { count_non_ws(s.drop_last()) + (if is_ws(s.last()) { 0nat } else { 1nat }) }
}

/// CJK Unified Ideographs (with Extension A) and Compatibility Ideographs.
pub open spec fn is_cjk(c: char) -> bool {
    (0x3400 <= c as u32 <= 0x9fff) || (0xf900 <= c as u32 <= 0xfaff)
}

pub open spec fn count_cjk(s: Seq<char>) -> nat
    decreases s.len(),
{
    if s.len() == 0 { 0 } else { count_cjk(s.drop_last()) + (if is_cjk(s.last()) { 1nat } else { 0nat }) }
}

pub open spec fn has_latin(w: Seq<char>) -> bool {
    exists|i: int| 0 <= i < w.len() && is_ascii_alpha(#[trigger] w[i])
}

pub open spec fn count_latin_words(ws: Seq<Seq<char>>) -> nat
    decreases ws.len(),
{
    if ws.len() == 0 { 0 } else { count_latin_words(ws.drop_last()) + (if has_latin(ws.last()) { 1nat } else { 0nat }) }
}

pub open spec fn sat_mul(a: nat, b: nat) -> nat {
    if a * b > u64::MAX { u64::MAX as nat } else { a * b }
}

/// Typing time a transcript would have taken: 40 CJK characters or 40 Latin words per minute.
pub open spec fn typing_ms(s: Seq<char>) -> nat {
    sat_mul(count_cjk(s), 60000) / 40 + sat_mul(count_latin_words(words(s)), 60000) / 40
}

/// Law: typing a transcript would take 1.5 seconds for each CJK character and for each
/// whitespace-separated word holding an ASCII letter (40 of either per minute), as long
/// as neither count is so large that the minutes saturate.
pub proof fn law_typing_time_counts_characters_and_words(s: Seq<char>)
    requires
        count_cjk(s) * 60000 <= u64::MAX,
        count_latin_words(words(s)) * 60000 <= u64::MAX,
    ensures
        typing_ms(s) == 1500 * count_cjk(s) + 1500 * count_latin_words(words(s)),
{
    let a = count_cjk(s);
    let b = count_latin_words(words(s));
    assert(a * 60000 / 40 == 1500 * a) by (nonlinear_arith);
    assert(b * 60000 / 40 == 1500 * b) by (nonlinear_arith);
}

/// Law: the time saved is the typing time less the time spoken, never below zero, and
/// every word with an ASCII letter adds to it like a CJK character does.
pub proof fn law_time_saved_counts_latin_words(s: Seq<char>, spoken_ms: u64)
    requires
        count_cjk(s) * 60000 <= u64::MAX,
        count_latin_words(words(s)) * 60000 <= u64::MAX,
    ensures
        ({
            let typed = 1500 * (count_cjk(s) + count_latin_words(words(s)));
            (if typing_ms(s) > spoken_ms { typing_ms(s) - spoken_ms } else { 0 }) == (if typed > spoken_ms {
                typed - spoken_ms
            } else {
                0
            })
        }),
{
    law_typing_time_counts_characters_and_words(s);
}

fn sat_mul_minute(a: u64) -> (r: u64)
    ensures r == sat_mul(a as nat, 60000),
{
    if a > u64::MAX / 60000 {
        u64::MAX
    } else {
        a * 60000
    }
}

/// (non-whitespace characters, time saved against typing, never negative).
pub fn output_metrics(text: &str, spoken_duration_ms: u64) -> (r: (u64, u64))
    ensures
        r.0 == count_non_ws(text@),
        r.1 == (if typing_ms(text@) > spoken_duration_ms { typing_ms(text@) - spoken_duration_ms } else { 0 }),
{
    let s = chars_of(text);
    let n = s.len();
    let mut chars: u64 = 0;
    let mut cjk: u64 = 0;
    let mut i: usize = 0;
    while i < n
        invariant
            i <= n,
            n == s@.len(),
            chars == count_non_ws(s@.take(i as int)),
            cjk == count_cjk(s@.take(i as int)),
            chars <= i,
            cjk <= i,
        decreases n - i,
    {
        proof { assert(s@.take(i + 1).drop_last() =~= s@.take(i as int)); }
        let c = s[i];
        if !exec_is_ws(c) {
            chars = chars + 1;
        }
        let u = c as u32;
        if (0x3400 <= u && u <= 0x9fff) || (0xf900 <= u && u <= 0xfaff) {
            cjk = cjk + 1;
        }
        i += 1;
    }
    proof { assert(s@.take(n as int) =~= s@); }
    let ws = split_words(s.as_slice());
    let mut latin: u64 = 0;
    let mut k: usize = 0;
    while k < ws.len()
        invariant
            k <= ws@.len(),
            views(ws@) == words(s@),
            latin == count_latin_words(words(s@).take(k as int)),
            latin <= k,
        decreases ws@.len() - k,
    {
        proof {
            assert(words(s@).take(k + 1).drop_last() =~= words(s@).take(k as int));
            assert(views(ws@)[k as int] == ws@[k as int]@);
        }
        let w = &ws[k];
        let mut found = false;
        let mut j: usize = 0;
        while j < w.len()
            invariant
                j <= w@.len(),
                found == exists|m: int| 0 <= m < j && is_ascii_alpha(#[trigger] w@[m]),
            decreases w@.len() - j,
        {
            if exec_is_ascii_alpha(w[j]) {
                found = true;
            }
            j += 1;
        }
        if found {
            latin = latin + 1;
        }
        k += 1;
    }
    proof { assert(words(s@).take(ws@.len() as int) =~= words(s@)); }
    let typing = sat_mul_minute(cjk) / 40 + sat_mul_minute(latin) / 40;
    (chars, typing.saturating_sub(spoken_duration_ms))
}

pub open spec fn strip_prefix(s: Seq<char>, p: Seq<char>) -> Option<Seq<char>> {
    if p.len() <= s.len() && s.take(p.len() as int) == p { Some(s.subrange(p.len() as int, s.len() as int)) } else { None }
}

pub open spec fn strip_suffix(s: Seq<char>, p: Seq<char>) -> Option<Seq<char>> {
    if p.len() <= s.len() && s.subrange(s.len() - p.len(), s.len() as int) == p { Some(s.take(s.len() - p.len())) } else { None }
}

/// The (before, after) pair a manual correction teaches. When the system output was
/// injected into a larger baseline exactly once, the user's edit is cut back to the span
/// that replaced the output; otherwise the whole baseline pairs with the final text.
pub open spec fn correction_pair(output: Seq<char>, baseline: Option<Seq<char>>, final_text: Seq<char>)
    -> (Seq<char>, Seq<char>)
{
    match baseline {
        None => (output, final_text),
        Some(b) => if b == output || output.len() == 0 {
            (output, final_text)
        } else {
            match find(b, output) {
                None => (b, final_text),
                Some(start) => if find_from(b, output, start + output.len()) is Some {
                    (b, final_text)
                } else {
                    let prefix = b.take(start);
                    let suffix = b.subrange(start + output.len(), b.len() as int);
                    match strip_prefix(final_text, prefix) {
                        None => (b, final_text),
                        Some(rest) => match strip_suffix(rest, suffix) {
                            None => (b, final_text),
                            Some(after) => (output, after),
                        },
                    }
                },
            }
        },
    }
}

/// Law: with a baseline, the pair is either the whole baseline with the final text, or
/// the output with the span of the final text that replaced it. In the latter case,
/// when the baseline is more than the output, the output occurs in the baseline at a
/// first position `k` and not again after it, and the final text is the baseline before
/// `k`, then the second component, then the baseline after the output.
pub proof fn law_correction_pair_cuts_around_the_output(output: Seq<char>, baseline: Seq<char>, final_text: Seq<char>)
    ensures
        ({
            let r = correction_pair(output, Some(baseline), final_text);
            &&& r.0 == output || r == (baseline, final_text)
            &&& r.0 == output && output != baseline && output.len() > 0 ==> exists|k: int| {
                &&& #[trigger] matches_at(baseline, output, k)
                &&& forall|j: int| 0 <= j < k ==> !matches_at(baseline, output, j)
                &&& forall|j: int| k + output.len() <= j ==> !matches_at(baseline, output, j)
                &&& final_text == baseline.take(k) + r.1 + baseline.skip(k + output.len())
            }
        }),
{
    if baseline != output && output.len() > 0 {
        lemma_find_from(baseline, output, 0);
        match find(baseline, output) {
            None => {},
            Some(start) => {
                let end = start + output.len();
                lemma_find_from(baseline, output, end);
                if find_from(baseline, output, end) is None {
                    let prefix = baseline.take(start);
                    let suffix = baseline.subrange(end, baseline.len() as int);
                    match strip_prefix(final_text, prefix) {
                        None => {},
                        Some(rest) => match strip_suffix(rest, suffix) {
                            None => {},
                            Some(after) => {
                                assert(baseline.skip(end) =~= suffix);
                                assert(final_text =~= prefix + after + suffix);
                                assert(matches_at(baseline, output, start));
                            },
                        },
                    }
                }
            },
        }
    }
}

/// Law: when the output occurs in a longer baseline at a first position `k` and not
/// again after it, and the final text keeps the baseline around it, the pair is the
/// output with exactly what replaced it.
pub proof fn law_correction_pair_finds_the_edit(output: Seq<char>, baseline: Seq<char>, k: int, replacement: Seq<char>)
    requires
        output.len() > 0,
        baseline != output,
        matches_at(baseline, output, k),
        forall|j: int| 0 <= j < k ==> !matches_at(baseline, output, j),
        forall|j: int| k + output.len() <= j ==> !matches_at(baseline, output, j),
    ensures
        correction_pair(
            output,
            Some(baseline),
            baseline.take(k) + replacement + baseline.skip(k + output.len()),
        ) == (output, replacement),
{
    let f = baseline.take(k) + replacement + baseline.skip(k + output.len());
    lemma_find_from(baseline, output, 0);
    let end = k + output.len();
    lemma_find_from(baseline, output, end);
    assert(find(baseline, output) == Some(k)) by {
        if find(baseline, output) is None {
            assert(!matches_at(baseline, output, k));
        }
    }
    assert(find_from(baseline, output, end) is None) by {
        if let Some(j) = find_from(baseline, output, end) {
            assert(matches_at(baseline, output, j));
        }
    }
    let prefix = baseline.take(k);
    let suffix = baseline.subrange(end, baseline.len() as int);
    assert(f.take(prefix.len() as int) =~= prefix);
    let rest = f.subrange(prefix.len() as int, f.len() as int);
    assert(strip_prefix(f, prefix) == Some(rest));
    assert(rest =~= replacement + suffix);
    assert(rest.subrange(rest.len() - suffix.len(), rest.len() as int) =~= suffix);
    assert(rest.take(rest.len() - suffix.len()) =~= replacement);
}

pub fn manual_correction_pair(output: &str, baseline: Option<&str>, final_text: &str) -> (r: (String, String))
    ensures
        (r.0@, r.1@) == correction_pair(output@, match baseline { Some(b) => Some(b@), None => None }, final_text@),
{
    let out = chars_of(output);
    let fin = chars_of(final_text);
    let base = match baseline {
        None => {
            return (string_of(out.as_slice()), string_of(fin.as_slice()));
        },
        Some(b) => chars_of(b),
    };
    if str_chars_eq(base.as_slice(), out.as_slice()) || out.len() == 0 {
        return (string_of(out.as_slice()), string_of(fin.as_slice()));
    }
    let start = match find_chars(base.as_slice(), out.as_slice(), 0) {
        None => {
            return (string_of(base.as_slice()), string_of(fin.as_slice()));
        },
        Some(s) => s,
    };
    proof { lemma_find_from(base@, out@, 0); }
    let bn = base.len();
    let end = start + out.len();
    if find_chars(base.as_slice(), out.as_slice(), end).is_some() {
        return (string_of(base.as_slice()), string_of(fin.as_slice()));
    }
    let prefix = slice_to_vec(base.as_slice(), 0, start);
    let suffix = slice_to_vec(base.as_slice(), end, bn);
    let fnl = fin.len();
    if prefix.len() > fnl || !str_chars_eq(&fin.as_slice()[0..prefix.len()], prefix.as_slice()) {
        return (string_of(base.as_slice()), string_of(fin.as_slice()));
    }
    let pl = prefix.len();
    let rest = slice_to_vec(fin.as_slice(), pl, fnl);
    let rn = rest.len();
    if suffix.len() > rn || !str_chars_eq(&rest.as_slice()[rn - suffix.len()..rn], suffix.as_slice()) {
        return (string_of(base.as_slice()), string_of(fin.as_slice()));
    }
    let after = slice_to_vec(rest.as_slice(), 0, rn - suffix.len());
    (string_of(out.as_slice()), string_of(after.as_slice()))
}

pub fn manual_correction_pair_for_learning(output: &str, baseline: Option<&str>, final_text: &str)
    -> (r: (String, String))
    ensures
        (r.0@, r.1@) == correction_pair(output@, match baseline { Some(b) => Some(b@), None => None }, final_text@),
{
    manual_correction_pair(output, baseline, final_text)
}

#[derive(Debug, PartialEq, Eq)]
pub struct TextDiffSegment {
    pub kind: String,
    pub text: String,
}

pub open spec fn kind_name(tag: u8) -> Seq<char> {
    if tag == EQUAL { "equal"@ } else if tag == DELETE { "delete"@ } else { "insert"@ }
}

/// Consecutive changes of one kind merged into one segment.
pub open spec fn merge_runs(changes: Seq<(u8, Seq<char>)>) -> Seq<(Seq<char>, Seq<char>)>
    decreases changes.len(),
{
    if changes.len() == 0 {
        Seq::empty()
    } else {
        let g = merge_runs(changes.drop_last());
        let c = changes.last();
        if g.len() > 0 && g.last().0 == kind_name(c.0) {
            g.drop_last().push((g.last().0, g.last().1 + c.1))
        } else {
            g.push((kind_name(c.0), c.1))
        }
    }
}

pub open spec fn segment_views(v: Seq<TextDiffSegment>) -> Seq<(Seq<char>, Seq<char>)> {
    v.map_values(|s: TextDiffSegment| (s.kind@, s.text@))
}

fn kind_string(tag: u8) -> (s: String)
    ensures s@ == kind_name(tag),
{
    if tag == EQUAL {
        String::from_str("equal")
    } else if tag == DELETE {
        String::from_str("delete")
    } else {
        String::from_str("insert")
    }
}

/// The diff of `before` into `after` as runs of equal, deleted and inserted text.
pub fn diff_segments(before: &str, after: &str) -> (segments: Vec<TextDiffSegment>)
    ensures segment_views(segments@) == merge_runs(char_diff(before@, after@)),
{
    let changes = diff_chars(before, after);
    let ghost cv = change_views(changes@);
    let mut segments: Vec<TextDiffSegment> = Vec::new();
    let mut i: usize = 0;
    while i < changes.len()
        invariant
            i <= changes@.len(),
            cv == change_views(changes@),
            segment_views(segments@) == merge_runs(cv.take(i as int)),
        decreases changes@.len() - i,
    {
        let c = &changes[i];
        proof {
            assert(cv.take(i + 1).drop_last() =~= cv.take(i as int));
            assert(cv.take(i + 1).last() == (c.tag, c.value@));
        }
        let kind = kind_string(c.tag);
        let n = segments.len();
        let same = n > 0 && str_chars_eq(chars_of(segments[n - 1].kind.as_str()).as_slice(), chars_of(kind.as_str()).as_slice());
        if same {
            let last = segments.pop().unwrap();
            let mut text = chars_of(last.text.as_str());
            let value = chars_of(c.value.as_str());
            push_all(&mut text, value.as_slice());
            let ghost before_push = segments@;
            segments.push(TextDiffSegment { kind: last.kind, text: string_of(text.as_slice()) });
            proof {
                assert(segment_views(segments@) =~= segment_views(before_push).push((last.kind@, last.text@ + c.value@)));
                assert(segment_views(before_push) =~= merge_runs(cv.take(i as int)).drop_last());
            }
        } else {
            let ghost before_push = segments@;
            segments.push(TextDiffSegment { kind, text: String::from_str(c.value.as_str()) });
            proof {
                assert(segment_views(segments@) =~= segment_views(before_push).push((kind_name(c.tag), c.value@)));
            }
        }
        i += 1;
    }
    proof { assert(cv.take(changes@.len() as int) =~= cv); }
    segments
}

} // verus!

verus! {

/// Whether `excluded` lists the application by its process or display name (trimmed),
/// ignoring ASCII case.
pub open spec fn excluded_by(excluded: Seq<Json>, app_name: Seq<char>, process_name: Seq<char>) -> bool {
    exists|i: int| 0 <= i < excluded.len() && (#[trigger] excluded[i] matches Json::Str(v) && (eq_ignore_ascii_case(
        v@,
        trim(process_name),
    ) || eq_ignore_ascii_case(v@, trim(app_name))))
}

/// Dictations are recorded unless history is switched off (`enabled` is `false`) or
/// the application is among `excludedApps`.
pub open spec fn recording_allowed(prefs: Json, app_name: Seq<char>, process_name: Seq<char>) -> bool {
    match prefs {
        Json::Object(e) => {
            let enabled = !(member(e@, "enabled"@) == Some(Json::Bool(false)));
            let excluded = match member(e@, "excludedApps"@) {
                Some(Json::Array(a)) => excluded_by(a@, app_name, process_name),
                _ => false,
            };
            enabled && !excluded
        },
        _ => true,
    }
}

pub fn history_recording_allowed(prefs: &Json, app_name: &str, process_name: &str) -> (b: bool)
    ensures
        b == recording_allowed(*prefs, app_name@, process_name@),
{
    let e = match prefs {
        Json::Object(e) => e,
        _ => return true,
    };
    match get_member(e, "enabled") {
        Some(Json::Bool(false)) => return false,
        _ => {},
    }
    let a = match get_member(e, "excludedApps") {
        Some(Json::Array(a)) => a,
        _ => return true,
    };
    let process = string_of(trim_chars(chars_of(process_name).as_slice()).as_slice());
    let app = string_of(trim_chars(chars_of(app_name).as_slice()).as_slice());
    let mut i: usize = 0;
    while i < a.len()
        invariant
            i <= a@.len(),
            process@ == trim(process_name@),
            app@ == trim(app_name@),
            *prefs == Json::Object(*e),
            member(e@, "excludedApps"@) == Some(Json::Array(*a)),
            member(e@, "enabled"@) != Some(Json::Bool(false)),
            forall|j: int| 0 <= j < i ==> !(#[trigger] a@[j] matches Json::Str(v) && (eq_ignore_ascii_case(v@, trim(process_name@))
                || eq_ignore_ascii_case(v@, trim(app_name@)))),
        decreases a@.len() - i,
    {
        match &a[i] {
            Json::Str(v) => {
                if exec_eq_ignore_ascii_case(v.as_str(), process.as_str()) || exec_eq_ignore_ascii_case(v.as_str(), app.as_str()) {
                    proof {
                        assert(a@[i as int] matches Json::Str(w) && (eq_ignore_ascii_case(w@, trim(process_name@))
                            || eq_ignore_ascii_case(w@, trim(app_name@))));
                        assert(excluded_by(a@, app_name@, process_name@));
                    }
                    return false;
                }
            },
            _ => {},
        }
        i += 1;
    }
    true
}

pub open spec fn confidence_message() -> Seq<char> {
    "最终草稿可信度无效"@
}

pub open spec fn source_message() -> Seq<char> {
    "最终草稿来源无效"@
}

pub open spec fn empty_final_draft_message() -> Seq<char> {
    "空的最终草稿不会保存"@
}

/// An observed final draft must come with a high or medium confidence, from the
/// keyboard, a click or an automatic enter, and must not be blank.
pub fn check_observed_final_text(final_text: &str, confidence: &str, source: &str) -> (r: Result<(), String>)
    ensures
        !(confidence@ == "high"@ || confidence@ == "medium"@) ==> r is Err && r->Err_0@ == confidence_message(),
        (confidence@ == "high"@ || confidence@ == "medium"@) && !(source@ == "keyboard"@ || source@ == "click"@
            || source@ == "autoEnter"@) ==> r is Err && r->Err_0@ == source_message(),
        (confidence@ == "high"@ || confidence@ == "medium"@) && (source@ == "keyboard"@ || source@ == "click"@
            || source@ == "autoEnter"@) ==> (r is Ok <==> !is_blank(final_text@)),
        r is Err && (confidence@ == "high"@ || confidence@ == "medium"@) && (source@ == "keyboard"@ || source@ == "click"@
            || source@ == "autoEnter"@) ==> r->Err_0@ == empty_final_draft_message(),
{
    if !(str_eq(confidence, "high") || str_eq(confidence, "medium")) {
        return Err(String::from_str("最终草稿可信度无效"));
    }
    if !(str_eq(source, "keyboard") || str_eq(source, "click") || str_eq(source, "autoEnter")) {
        return Err(String::from_str("最终草稿来源无效"));
    }
    if crate::text::exec_is_blank(final_text) {
        return Err(String::from_str("空的最终草稿不会保存"));
    }
    Ok(())
}

/// Only a succeeded dictation takes an observed final draft.
pub fn observed_target(status: &str, task_kind: &str) -> (b: bool)
    ensures
        b == (status@ == "succeeded"@ && task_kind@ == "dictation"@),
{
    str_eq(status, "succeeded") && str_eq(task_kind, "dictation")
}

/// The observed correction worth learning from: a non-blank text that differs from the
/// output.
pub fn observed_correction<'a>(correction_after: Option<&'a str>, output_text: &str) -> (r: Option<&'a str>)
    ensures
        r == (match correction_after {
            Some(a) => if !is_blank(a@) && a@ != output_text@ { Some(a) } else { None },
            None => None,
        }),
{
    match correction_after {
        Some(a) => {
            if !crate::text::exec_is_blank(a) && !str_eq(a, output_text) { Some(a) } else { None }
        },
        None => None,
    }
}

pub open spec fn empty_correction_message() -> Seq<char> {
    "修正后的文本不能为空"@
}

pub open spec fn still_processing_message() -> Seq<char> {
    "本次任务仍在处理，请完成后再修正；现在可以复制原文"@
}

/// A confirmed final text must not be blank, and the entry must have finished
/// processing.
pub fn check_confirmed_final_text(final_text: &str, status: &str) -> (r: Result<(), String>)
    ensures
        is_blank(final_text@) ==> r is Err && r->Err_0@ == empty_correction_message(),
        !is_blank(final_text@) && (status@ == "recognized"@ || status@ == "processed"@) ==> r is Err
            && r->Err_0@ == still_processing_message(),
        !is_blank(final_text@) && !(status@ == "recognized"@ || status@ == "processed"@) ==> r is Ok,
{
    if crate::text::exec_is_blank(final_text) {
        return Err(String::from_str("修正后的文本不能为空"));
    }
    if str_eq(status, "recognized") || str_eq(status, "processed") {
        return Err(String::from_str("本次任务仍在处理，请完成后再修正；现在可以复制原文"));
    }
    Ok(())
}

pub open spec fn retry_busy_message() -> Seq<char> {
    "本次任务仍在处理，不能重复注入；现在可以复制原文"@
}

pub open spec fn nothing_to_retry_message() -> Seq<char> {
    "这条记录没有可重试注入的结果"@
}

/// The text a retried injection types: the final text when it is not blank, otherwise
/// the output. An entry still being processed cannot be retried, and there must be
/// something to type.
pub fn retry_injection_text(status: &str, final_text: Option<&str>, output_text: &str) -> (r: Result<String, String>)
    ensures
        (status@ == "recognized"@ || status@ == "processed"@) ==> r is Err && r->Err_0@ == retry_busy_message(),
        !(status@ == "recognized"@ || status@ == "processed"@) ==> {
            let text = match final_text {
                Some(f) => if !is_blank(f@) { f@ } else { output_text@ },
                None => output_text@,
            };
            &&& is_blank(text) ==> r is Err && r->Err_0@ == nothing_to_retry_message()
            &&& !is_blank(text) ==> r is Ok && r->Ok_0@ == text
        },
{
    if str_eq(status, "recognized") || str_eq(status, "processed") {
        return Err(String::from_str("本次任务仍在处理，不能重复注入；现在可以复制原文"));
    }
    let text: &str = match final_text {
        Some(f) => if !crate::text::exec_is_blank(f) { f } else { output_text },
        None => output_text,
    };
    if crate::text::exec_is_blank(text) {
        return Err(String::from_str("这条记录没有可重试注入的结果"));
    }
    Ok(String::from_str(text))
}

/// Whether the window that would receive a retried injection belongs to the entry's
/// application: an entry without a process accepts any target; otherwise the process
/// or application names must agree, ignoring ASCII case.
pub fn retry_target_matches(entry_process: &str, entry_app: &str, target_process: &str, target_app: &str) -> (b: bool)
    ensures
        b == (entry_process@.len() == 0 || eq_ignore_ascii_case(target_process@, entry_process@)
            || eq_ignore_ascii_case(target_app@, entry_app@)),
{
    entry_process.is_empty() || exec_eq_ignore_ascii_case(target_process, entry_process)
        || exec_eq_ignore_ascii_case(target_app, entry_app)
}

/// The refusal when the target window belongs to another application; the entry is
/// named by its application, or by its process when it has no application name.
pub fn retry_target_mismatch(target_app: &str, entry_app: &str, entry_process: &str) -> (m: String)
    ensures
        m@ == "当前目标是 "@ + target_app@ + "，与历史记录来源 "@ + (if entry_app@.len() == 0 {
            entry_process@
        } else {
            entry_app@
        }) + " 不一致，已取消注入"@,
{
    let source: &str = if entry_app.is_empty() { entry_process } else { entry_app };
    let parts = ["当前目标是 ", target_app, "，与历史记录来源 ", source, " 不一致，已取消注入"];
    let m = crate::text::concat_strs(&parts);
    proof {
        reveal_with_fuel(crate::text::concat_all, 6);
        assert(parts@.map_values(|p: &str| p@) =~= seq!["当前目标是 "@, target_app@, "，与历史记录来源 "@, source@, " 不一致，已取消注入"@]);
    }
    m
}

/// What a finished processing result does to a pending final draft.
#[derive(Clone, Copy, Debug, PartialEq, Eq, Structural)]
pub enum FinalDraftAction {
    Consume,
    Cancel,
    Keep,
}

pub fn final_draft_action(status: &str) -> (a: FinalDraftAction)
    ensures
        status@ == "succeeded"@ ==> a == FinalDraftAction::Consume,
        status@ != "succeeded"@ && (status@ == "failed"@ || status@ == "cancelled"@) ==> a == FinalDraftAction::Cancel,
        status@ != "succeeded"@ && !(status@ == "failed"@ || status@ == "cancelled"@) ==> a == FinalDraftAction::Keep,
{
    if str_eq(status, "succeeded") {
        FinalDraftAction::Consume
    } else if str_eq(status, "failed") || str_eq(status, "cancelled") {
        FinalDraftAction::Cancel
    } else {
        FinalDraftAction::Keep
    }
}

pub open spec fn empty_history_message() -> Seq<char> {
    "空内容不会写入历史"@
}

/// An entry with neither source nor output text is not written.
pub fn check_history_content(source_text: &str, output_text: &str) -> (r: Result<(), String>)
    ensures
        is_blank(source_text@) && is_blank(output_text@) ==> r is Err && r->Err_0@ == empty_history_message(),
        !(is_blank(source_text@) && is_blank(output_text@)) ==> r is Ok,
{
    if crate::text::exec_is_blank(source_text) && crate::text::exec_is_blank(output_text) {
        Err(String::from_str("空内容不会写入历史"))
    } else {
        Ok(())
    }
}

/// A succeeded edit of a selection whose source differs from its output is a manual,
/// confirmed correction.
pub fn explicit_correction(task_kind: &str, status: &str, source_text: &str, output_text: &str) -> (b: bool)
    ensures
        b == (task_kind@ == "editSelection"@ && status@ == "succeeded"@ && !is_blank(source_text@)
            && source_text@ != output_text@),
{
    str_eq(task_kind, "editSelection") && str_eq(status, "succeeded") && !crate::text::exec_is_blank(source_text)
        && !str_eq(source_text, output_text)
}

} // verus!
