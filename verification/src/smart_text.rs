//! Smart text processing: prompt templates and the model-output boundary.
use crate::text::{
    chars_of, contains, contains_chars, find, find_chars, find_from, lemma_find_from, matches_at,
    push_all, slice_to_vec, str_chars_eq, str_eq, string_of, trim, trim_chars,
};
use vstd::prelude::*;

verus! {

pub open spec fn text_placeholder() -> Seq<char> {
    seq!['{', '{', 't', 'e', 'x', 't', '}', '}']
}

pub open spec fn active_app_context_placeholder() -> Seq<char> {
    seq!['{', '{', 'a', 'c', 't', 'i', 'v', 'e', '_', 'a', 'p', 'p', '_', 'c', 'o', 'n', 't', 'e', 'x', 't', '}', '}']
}

pub open spec fn global_context_placeholder() -> Seq<char> {
    seq!['{', '{', 'g', 'l', 'o', 'b', 'a', 'l', '_', 'c', 'o', 'n', 't', 'e', 'x', 't', '}', '}']
}

pub open spec fn hotwords_placeholder() -> Seq<char> {
    seq!['{', '{', 'h', 'o', 't', 'w', 'o', 'r', 'd', 's', '}', '}']
}

pub fn text_placeholder_chars() -> (v: Vec<char>)
    ensures v@ == text_placeholder(),
{
    let v = chars_of("{{text}}");
    proof {
        reveal_strlit("{{text}}");
        assert(v@ =~= text_placeholder());
    }
    v
}

pub fn active_app_context_placeholder_chars() -> (v: Vec<char>)
    ensures v@ == active_app_context_placeholder(),
{
    let v = chars_of("{{active_app_context}}");
    proof {
        reveal_strlit("{{active_app_context}}");
        assert(v@ =~= active_app_context_placeholder());
    }
    v
}

pub fn global_context_placeholder_chars() -> (v: Vec<char>)
    ensures v@ == global_context_placeholder(),
{
    let v = chars_of("{{global_context}}");
    proof {
        reveal_strlit("{{global_context}}");
        assert(v@ =~= global_context_placeholder());
    }
    v
}

pub fn hotwords_placeholder_chars() -> (v: Vec<char>)
    ensures v@ == hotwords_placeholder(),
{
    let v = chars_of("{{hotwords}}");
    proof {
        reveal_strlit("{{hotwords}}");
        assert(v@ =~= hotwords_placeholder());
    }
    v
}

/// The template asks for the active application's context.
pub fn requires_active_app_context(template: &str) -> (b: bool)
    ensures b == contains(template@, active_app_context_placeholder()),
{
    let t = chars_of(template);
    let p = active_app_context_placeholder_chars();
    contains_chars(t.as_slice(), p.as_slice())
}

/// The earliest placeholder occurrence in `rem` among the first `n` placeholders, as
/// (position, placeholder index); the earlier placeholder wins a tie.
pub open spec fn earliest(rem: Seq<char>, values: Seq<(Seq<char>, Seq<char>)>, n: int) -> Option<(int, int)>
    decreases n,
{
    if n <= 0 {
        None
    } else {
        let e = earliest(rem, values, n - 1);
        match find(rem, values[n - 1].0) {
            None => e,
            Some(f) => match e {
                None => Some((f, n - 1)),
                Some(p) => if f < p.0 { Some((f, n - 1)) } else { e },
            },
        }
    }
}

pub proof fn lemma_earliest(rem: Seq<char>, values: Seq<(Seq<char>, Seq<char>)>, n: int)
    requires 0 <= n <= values.len(),
    ensures
        earliest(rem, values, n) matches Some(p) ==> 0 <= p.1 < n && find(rem, values[p.1].0) == Some(p.0)
            && matches_at(rem, values[p.1].0, p.0) && 0 <= p.0,
    decreases n,
{
    if n > 0 {
        lemma_earliest(rem, values, n - 1);
        lemma_find_from(rem, values[n - 1].0, 0);
    }
}

/// Single left-to-right pass: every placeholder occurrence in the template is replaced,
/// and replaced text is never scanned again.
pub open spec fn replace_all(rem: Seq<char>, values: Seq<(Seq<char>, Seq<char>)>) -> Seq<char>
    decreases rem.len(),
{
    if forall|i: int| 0 <= i < values.len() ==> #[trigger] values[i].0.len() > 0 {
        match earliest(rem, values, values.len() as int) {
            None => rem,
            Some(p) => {
                proof { lemma_earliest(rem, values, values.len() as int); }
                rem.take(p.0) + values[p.1].1 + replace_all(rem.subrange(p.0 + values[p.1].0.len(), rem.len() as int), values)
            },
        }
    } else {
        rem
    }
}

pub open spec fn pair_views(values: Seq<(Vec<char>, Vec<char>)>) -> Seq<(Seq<char>, Seq<char>)> {
    values.map_values(|p: (Vec<char>, Vec<char>)| (p.0@, p.1@))
}

fn replace_placeholders_chars(template: &[char], values: &Vec<(Vec<char>, Vec<char>)>) -> (out: Vec<char>)
    requires forall|i: int| 0 <= i < values@.len() ==> #[trigger] values@[i].0@.len() > 0,
    ensures out@ == replace_all(template@, pair_views(values@)),
{
    let ghost vs = pair_views(values@);
    let mut out: Vec<char> = Vec::new();
    let mut rem = slice_to_vec(template, 0, template.len());
    proof { assert(rem@ =~= template@); }
    loop
        invariant
            vs == pair_views(values@),
            forall|i: int| 0 <= i < vs.len() ==> #[trigger] vs[i].0.len() > 0,
            out@ + replace_all(rem@, vs) == replace_all(template@, vs),
        decreases rem@.len(),
    {
        proof {
            assert forall|i: int| 0 <= i < vs.len() implies #[trigger] vs[i].0.len() > 0 by {
                assert(vs[i].0 == values@[i].0@);
            }
        }
        let mut best: Option<(usize, usize)> = None;
        let rn = rem.len();
        let mut k: usize = 0;
        while k < values.len()
            invariant
                k <= values@.len(),
                rn == rem@.len(),
                vs == pair_views(values@),
                match earliest(rem@, vs, k as int) {
                    None => best is None,
                    Some(p) => best == Some((p.0 as usize, p.1 as usize)) && p.0 >= 0 && p.1 >= 0
                        && p.0 <= rem@.len(),
                },
            decreases values@.len() - k,
        {
            proof { lemma_earliest(rem@, vs, k as int); }
            let f = find_chars(rem.as_slice(), values[k].0.as_slice(), 0);
            proof {
                lemma_find_from(rem@, values@[k as int].0@, 0);
                assert(vs[k as int].0 == values@[k as int].0@);
            }
            match f {
                None => {},
                Some(pos) => {
                    match best {
                        None => { best = Some((pos, k)); },
                        Some((bp, _)) => {
                            if pos < bp {
                                best = Some((pos, k));
                            }
                        },
                    }
                },
            }
            k += 1;
        }
        proof { lemma_earliest(rem@, vs, vs.len() as int); }
        match best {
            None => {
                let ghost o = out@;
                push_all(&mut out, rem.as_slice());
                proof { assert(replace_all(rem@, vs) == rem@); }
                return out;
            },
            Some((pos, idx)) => {
                let ph_len = values[idx].0.len();
                let n = rem.len();
                let head = slice_to_vec(rem.as_slice(), 0, pos);
                push_all(&mut out, head.as_slice());
                push_all(&mut out, values[idx].1.as_slice());
                let ghost old_rem = rem@;
                proof { assert(vs[idx as int] == (values@[idx as int].0@, values@[idx as int].1@)); }
                rem = slice_to_vec(rem.as_slice(), pos + ph_len, n);
                proof {
                    assert(replace_all(old_rem, vs) == old_rem.take(pos as int) + vs[idx as int].1 + replace_all(rem@, vs));
                    assert(head@ =~= old_rem.take(pos as int));
                }
            },
        }
    }
}

/// `template` with every placeholder replaced in a single pass.
pub fn replace_placeholders(template: &str, values: &[(&str, &str)]) -> (out: String)
    requires forall|i: int| 0 <= i < values@.len() ==> #[trigger] values@[i].0@.len() > 0,
    ensures out@ == replace_all(template@, values@.map_values(|p: (&str, &str)| (p.0@, p.1@))),
{
    let t = chars_of(template);
    let mut vals: Vec<(Vec<char>, Vec<char>)> = Vec::new();
    let mut i: usize = 0;
    while i < values.len()
        invariant
            i <= values@.len(),
            pair_views(vals@) == values@.take(i as int).map_values(|p: (&str, &str)| (p.0@, p.1@)),
        decreases values@.len() - i,
    {
        let (a, b) = values[i];
        let ghost before = vals@;
        vals.push((chars_of(a), chars_of(b)));
        proof {
            assert(pair_views(vals@) =~= pair_views(before).push((a@, b@)));
            assert(values@.take(i + 1).map_values(|p: (&str, &str)| (p.0@, p.1@))
                =~= values@.take(i as int).map_values(|p: (&str, &str)| (p.0@, p.1@)).push((a@, b@)));
        }
        i += 1;
    }
    proof {
        assert(values@.take(values@.len() as int) =~= values@);
        assert forall|k: int| 0 <= k < vals@.len() implies #[trigger] vals@[k].0@.len() > 0 by {
            assert(pair_views(vals@)[k] == (vals@[k].0@, vals@[k].1@));
        }
    }
    let out = replace_placeholders_chars(t.as_slice(), &vals);
    string_of(out.as_slice())
}

} // verus!

verus! {

pub open spec fn empty_prompt_message() -> Seq<char> {
    "智能处理提示词不能为空"@
}

pub open spec fn missing_placeholder_message() -> Seq<char> {
    "智能处理提示词必须包含占位符 {{text}}"@
}

pub open spec fn prompt_values(text: Seq<char>, ctx: Seq<char>, global: Seq<char>, hotwords: Seq<char>)
    -> Seq<(Seq<char>, Seq<char>)>
{
    seq![
        (text_placeholder(), text),
        (active_app_context_placeholder(), ctx),
        (global_context_placeholder(), global),
        (hotwords_placeholder(), hotwords),
    ]
}

proof fn lemma_earliest_at_start(rem: Seq<char>, values: Seq<(Seq<char>, Seq<char>)>, k: int, n: int)
    requires
        0 <= k < values.len(),
        0 <= n <= values.len(),
        find(rem, values[k].0) == Some(0int),
        forall|j: int| 0 <= j < values.len() && j != k ==> match #[trigger] find(rem, values[j].0) {
            Some(f) => f > 0,
            None => true,
        },
    ensures
        n > k ==> earliest(rem, values, n) == Some((0int, k)),
        n <= k ==> (earliest(rem, values, n) matches Some(p) ==> p.0 > 0),
    decreases n,
{
    if n > 0 {
        lemma_earliest_at_start(rem, values, k, n - 1);
        if n - 1 != k {
            assert(find(rem, values[n - 1].0) matches Some(f) ==> f > 0);
        }
    }
}

/// Law: a filled-in value goes into the prompt verbatim and is never scanned again,
/// even when it looks like a placeholder itself; filling goes on after it.
pub proof fn law_value_is_inserted_verbatim(
    k: int,
    rest: Seq<char>,
    text: Seq<char>,
    ctx: Seq<char>,
    global: Seq<char>,
    hotwords: Seq<char>,
)
    requires
        0 <= k < 4,
    ensures
        ({
            let vals = prompt_values(text, ctx, global, hotwords);
            replace_all(vals[k].0 + rest, vals) == vals[k].1 + replace_all(rest, vals)
        }),
{
    let vals = prompt_values(text, ctx, global, hotwords);
    let t = vals[k].0 + rest;
    assert(forall|i: int| 0 <= i < vals.len() ==> #[trigger] vals[i].0.len() > 0);
    assert(t.subrange(0, vals[k].0.len() as int) =~= vals[k].0);
    assert(matches_at(t, vals[k].0, 0));
    lemma_find_from(t, vals[k].0, 0);
    assert forall|j: int| 0 <= j < vals.len() && j != k implies match #[trigger] find(t, vals[j].0) {
        Some(f) => f > 0,
        None => true,
    } by {
        lemma_find_from(t, vals[j].0, 0);
        if matches_at(t, vals[j].0, 0) {
            assert(t.subrange(0, vals[j].0.len() as int)[2] == t[2]);
            assert(t[2] == vals[k].0[2]);
        }
    }
    lemma_earliest_at_start(t, vals, k, 4);
    assert(t.take(0) =~= Seq::<char>::empty());
    assert(t.subrange(vals[k].0.len() as int, t.len() as int) =~= rest);
}

/// The trimmed template with its placeholders filled in. The template must be non-empty
/// and must contain `{{text}}`.
pub fn render_prompt(template: &str, text: &str, active_app_context: &str, global_context: &str, hotwords: &str)
    -> (r: Result<String, String>)
    ensures
        trim(template@).len() == 0 ==> r is Err && r->Err_0@ == empty_prompt_message(),
        trim(template@).len() > 0 && !contains(trim(template@), text_placeholder()) ==> r is Err
            && r->Err_0@ == missing_placeholder_message(),
        trim(template@).len() > 0 && contains(trim(template@), text_placeholder()) ==> r is Ok
            && r->Ok_0@ == replace_all(trim(template@), prompt_values(text@, active_app_context@, global_context@, hotwords@)),
{
    let raw = chars_of(template);
    let t = trim_chars(raw.as_slice());
    if t.len() == 0 {
        return Err(String::from_str("智能处理提示词不能为空"));
    }
    let tp = text_placeholder_chars();
    if !contains_chars(t.as_slice(), tp.as_slice()) {
        return Err(String::from_str("智能处理提示词必须包含占位符 {{text}}"));
    }
    let mut vals: Vec<(Vec<char>, Vec<char>)> = Vec::new();
    vals.push((tp, chars_of(text)));
    vals.push((active_app_context_placeholder_chars(), chars_of(active_app_context)));
    vals.push((global_context_placeholder_chars(), chars_of(global_context)));
    vals.push((hotwords_placeholder_chars(), chars_of(hotwords)));
    proof {
        assert(pair_views(vals@) =~= prompt_values(text@, active_app_context@, global_context@, hotwords@));
        assert forall|i: int| 0 <= i < vals@.len() implies #[trigger] vals@[i].0@.len() > 0 by {
            assert(pair_views(vals@)[i].0 == vals@[i].0@);
        }
    }
    let out = replace_placeholders_chars(t.as_slice(), &vals);
    Ok(string_of(out.as_slice()))
}

pub open spec fn think_open() -> Seq<char> {
    seq!['<', 't', 'h', 'i', 'n', 'k', '>']
}

pub open spec fn think_close() -> Seq<char> {
    seq!['<', '/', 't', 'h', 'i', 'n', 'k', '>']
}

/// The text outside completed `<think>…</think>` blocks; `None` when a block is left open.
pub open spec fn strip_thinking(rem: Seq<char>) -> Option<Seq<char>>
    decreases rem.len(),
{
    match find(rem, think_open()) {
        None => Some(rem),
        Some(s) => {
            let reasoning = rem.subrange(s + 7, rem.len() as int);
            match find(reasoning, think_close()) {
                None => None,
                Some(e) => {
                    proof {
                        lemma_find_from(rem, think_open(), 0);
                        lemma_find_from(reasoning, think_close(), 0);
                    }
                    match strip_thinking(reasoning.subrange(e + 8, reasoning.len() as int)) {
                        Some(r) => Some(rem.take(s) + r),
                        None => None,
                    }
                },
            }
        },
    }
}

pub open spec fn unfinished_thinking_message() -> Seq<char> {
    "大语言模型只返回了未完成的思考过程，请关闭该模型的推理或提高最大输出 Token"@
}

pub open spec fn no_final_text_message() -> Seq<char> {
    "大语言模型没有返回可用的最终文本"@
}

fn think_open_chars() -> (v: Vec<char>)
    ensures v@ == think_open(),
{
    let v = chars_of("<think>");
    proof {
        reveal_strlit("<think>");
        assert(v@ =~= think_open());
    }
    v
}

fn think_close_chars() -> (v: Vec<char>)
    ensures v@ == think_close(),
{
    let v = chars_of("</think>");
    proof {
        reveal_strlit("</think>");
        assert(v@ =~= think_close());
    }
    v
}

/// Only the final answer after reasoning blocks is accepted; an unfinished block, an
/// empty answer or a stray closing tag is an error.
pub fn final_text_from_output(output: &str) -> (r: Result<String, String>)
    ensures
        strip_thinking(trim(output@)) is None ==> r is Err && r->Err_0@ == unfinished_thinking_message(),
        strip_thinking(trim(output@)) matches Some(f) ==> ({
            let t = trim(f);
            &&& (t.len() == 0 || contains(t, think_close())) ==> r is Err && r->Err_0@ == no_final_text_message()
            &&& !(t.len() == 0 || contains(t, think_close())) ==> r is Ok && r->Ok_0@ == t
        }),
{
    let raw = chars_of(output);
    let mut rem = trim_chars(raw.as_slice());
    let open = think_open_chars();
    let close = think_close_chars();
    let mut final_text: Vec<char> = Vec::new();
    let ghost whole = rem@;
    loop
        invariant_except_break
            strip_thinking(whole) == (match strip_thinking(rem@) {
                Some(r) => Some(final_text@ + r),
                None => None,
            }),
        invariant
            open@ == think_open(),
            close@ == think_close(),
            whole == trim(output@),
        ensures
            strip_thinking(whole) == Some(final_text@),
        decreases rem@.len(),
    {
        let n = rem.len();
        match find_chars(rem.as_slice(), open.as_slice(), 0) {
            None => {
                let ghost old_final = final_text@;
                push_all(&mut final_text, rem.as_slice());
                proof { assert(strip_thinking(rem@) == Some(rem@)); }
                break;
            },
            Some(s) => {
                proof { lemma_find_from(rem@, open@, 0); }
                let reasoning = slice_to_vec(rem.as_slice(), s + 7, n);
                match find_chars(reasoning.as_slice(), close.as_slice(), 0) {
                    None => {
                        return Err(String::from_str("大语言模型只返回了未完成的思考过程，请关闭该模型的推理或提高最大输出 Token"));
                    },
                    Some(e) => {
                        proof { lemma_find_from(reasoning@, close@, 0); }
                        let head = slice_to_vec(rem.as_slice(), 0, s);
                        let ghost old_final = final_text@;
                        let ghost old_rem = rem@;
                        push_all(&mut final_text, head.as_slice());
                        let rn = reasoning.len();
                        rem = slice_to_vec(reasoning.as_slice(), e + 8, rn);
                        proof {
                            match strip_thinking(rem@) {
                                Some(r) => {
                                    assert(strip_thinking(old_rem) == Some(old_rem.take(s as int) + r));
                                    assert(old_final + (old_rem.take(s as int) + r) =~= final_text@ + r);
                                },
                                None => {
                                    assert(strip_thinking(old_rem) is None);
                                },
                            }
                        }
                    },
                }
            },
        }
    }
    let t = trim_chars(final_text.as_slice());
    if t.len() == 0 || contains_chars(t.as_slice(), close.as_slice()) {
        return Err(String::from_str("大语言模型没有返回可用的最终文本"));
    }
    Ok(string_of(t.as_slice()))
}

/// An LLM provided by a plugin.
pub open spec fn plugin_llm(kind: Seq<char>, capabilities: Seq<Seq<char>>) -> bool {
    kind.len() >= 7 && kind.take(7) == "plugin:"@ && capabilities.contains("llm"@)
}

pub fn is_plugin_llm(kind: &str, capabilities: &[String]) -> (b: bool)
    ensures b == plugin_llm(kind@, capabilities@.map_values(|s: String| s@)),
{
    let k = chars_of(kind);
    let prefix = chars_of("plugin:");
    proof { reveal_strlit("plugin:"); }
    if k.len() < 7 || !str_chars_eq(&k.as_slice()[0..7], prefix.as_slice()) {
        return false;
    }
    let ghost caps = capabilities@.map_values(|s: String| s@);
    proof { assert(k@.take(7) =~= k@.subrange(0, 7)); }
    let mut i: usize = 0;
    while i < capabilities.len()
        invariant
            i <= capabilities@.len(),
            kind@.len() >= 7 && kind@.take(7) == "plugin:"@,
            caps == capabilities@.map_values(|s: String| s@),
            forall|j: int| 0 <= j < i ==> caps[j] != "llm"@,
        decreases capabilities@.len() - i,
    {
        if str_eq(capabilities[i].as_str(), "llm") {
            proof {
                assert(caps[i as int] == "llm"@);
                assert(caps.contains("llm"@));
            }
            return true;
        }
        i += 1;
    }
    false
}

/// The adapter part of an `llm:<adapter>` provider kind.
pub open spec fn llm_adapter(kind: Seq<char>) -> Option<Seq<char>> {
    if kind.len() >= 4 && kind.take(4) == "llm:"@ { Some(kind.subrange(4, kind.len() as int)) } else { None }
}

pub fn llm_adapter_exec(kind: &str) -> (r: Option<Vec<char>>)
    ensures
        match llm_adapter(kind@) {
            Some(a) => r is Some && r->0@ == a,
            None => r is None,
        },
{
    let k = chars_of(kind);
    let prefix = chars_of("llm:");
    proof { reveal_strlit("llm:"); }
    if k.len() < 4 || !str_chars_eq(&k.as_slice()[0..4], prefix.as_slice()) {
        return None;
    }
    let n = k.len();
    Some(slice_to_vec(k.as_slice(), 4, n))
}

/// Kimi and BigModel reject an explicit zero reasoning budget.
pub fn supports_explicit_reasoning_zero(kind: &str) -> (b: bool)
    ensures b == !(llm_adapter(kind@) == Some("kimi"@) || llm_adapter(kind@) == Some("bigmodel"@)),
{
    match llm_adapter_exec(kind) {
        Some(a) => {
            let kimi = chars_of("kimi");
            let bigmodel = chars_of("bigmodel");
            !(str_chars_eq(a.as_slice(), kimi.as_slice()) || str_chars_eq(a.as_slice(), bigmodel.as_slice()))
        },
        None => true,
    }
}

/// Web search is offered only for adapters that document it.
pub fn supports_web_search(kind: &str) -> (b: bool)
    ensures b == (llm_adapter(kind@) == Some("volcengine"@) || llm_adapter(kind@) == Some("deepseek"@)
        || llm_adapter(kind@) == Some("bailian"@)),
{
    match llm_adapter_exec(kind) {
        Some(a) => {
            let v = chars_of("volcengine");
            let d = chars_of("deepseek");
            let b = chars_of("bailian");
            str_chars_eq(a.as_slice(), v.as_slice()) || str_chars_eq(a.as_slice(), d.as_slice())
                || str_chars_eq(a.as_slice(), b.as_slice())
        },
        None => false,
    }
}

/// Why a plugin model cannot be used, as the plugin checks find it in order.
pub open spec fn plugin_llm_error(
    display_name: Seq<char>,
    provider_id: Seq<char>,
    model: Seq<char>,
    has_runtime: bool,
    has_capability: bool,
) -> Option<Seq<char>> {
    if model.len() == 0 {
        Some("请先为 "@ + display_name + " 选择模型"@)
    } else if !has_runtime {
        Some("插件供应商 "@ + provider_id + " 没有 JavaScript runtime"@)
    } else if !has_capability {
        Some("插件 "@ + provider_id + " 未注册模型 "@ + model + " 的 LLM module"@)
    } else {
        None
    }
}

/// The runtime and LLM module of a plugin provider's selected (trimmed) `model`: an
/// error when no model is selected, when the registry has no runtime for the provider,
/// or when the plugin registered no LLM module for the model. A registry failure is
/// passed on as it is.
pub fn resolve_plugin_llm<R, C>(
    display_name: &str,
    provider_id: &str,
    model: &str,
    runtime: Result<Option<R>, String>,
    capability: Option<C>,
) -> (r: Result<(R, C), String>)
    ensures
        model@.len() > 0 && runtime is Err ==> r == Err::<(R, C), String>(runtime->Err_0),
        model@.len() == 0 || runtime is Ok ==> match plugin_llm_error(
            display_name@,
            provider_id@,
            model@,
            runtime matches Ok(Some(_)),
            capability is Some,
        ) {
            Some(e) => r matches Err(m) && m@ == e,
            None => r matches Ok((rt, cap)) && runtime == Ok::<Option<R>, String>(Some(rt)) && capability == Some(cap),
        },
{
    if model.is_empty() {
        let parts = ["请先为 ", display_name, " 选择模型"];
        let m = crate::text::concat_strs(&parts);
        proof {
            reveal_with_fuel(crate::text::concat_all, 4);
            assert(parts@.map_values(|p: &str| p@) =~= seq!["请先为 "@, display_name@, " 选择模型"@]);
        }
        return Err(m);
    }
    let spec = match runtime {
        Err(e) => return Err(e),
        Ok(None) => {
            let parts = ["插件供应商 ", provider_id, " 没有 JavaScript runtime"];
            let m = crate::text::concat_strs(&parts);
            proof {
                reveal_with_fuel(crate::text::concat_all, 4);
                assert(parts@.map_values(|p: &str| p@) =~= seq!["插件供应商 "@, provider_id@, " 没有 JavaScript runtime"@]);
            }
            return Err(m);
        },
        Ok(Some(spec)) => spec,
    };
    match capability {
        None => {
            let parts = ["插件 ", provider_id, " 未注册模型 ", model, " 的 LLM module"];
            let m = crate::text::concat_strs(&parts);
            proof {
                reveal_with_fuel(crate::text::concat_all, 6);
                assert(parts@.map_values(|p: &str| p@) =~= seq!["插件 "@, provider_id@, " 未注册模型 "@, model@, " 的 LLM module"@]);
            }
            Err(m)
        },
        Some(cap) => Ok((spec, cap)),
    }
}

/// How a selected LLM profile is called.
#[derive(Clone, Copy, Debug, PartialEq, Eq, Structural)]
pub enum LlmRoute {
    Groq,
    Plugin,
    Client,
}

/// Groq has its own SDK route, plugin LLMs run in the plugin runtime, everything else
/// goes through the generic client.
pub fn llm_route(kind: &str, capabilities: &[String]) -> (r: LlmRoute)
    ensures
        kind@ == "llm:groq"@ ==> r == LlmRoute::Groq,
        kind@ != "llm:groq"@ && plugin_llm(kind@, capabilities@.map_values(|s: String| s@)) ==> r == LlmRoute::Plugin,
        kind@ != "llm:groq"@ && !plugin_llm(kind@, capabilities@.map_values(|s: String| s@)) ==> r == LlmRoute::Client,
{
    if str_eq(kind, "llm:groq") {
        LlmRoute::Groq
    } else if is_plugin_llm(kind, capabilities) {
        LlmRoute::Plugin
    } else {
        LlmRoute::Client
    }
}

/// Why a Groq profile cannot be used without a stored key.
pub open spec fn groq_key_message() -> Seq<char> {
    "请先为 Groq 设置 API Key"@
}

/// Whether the selected LLM can be used, given the outcome of the check its route
/// makes: the Groq request must build and a key be stored; a plugin LLM must resolve;
/// any other must yield a client and model.
pub fn validate_available_for(
    route: LlmRoute,
    groq_request: Result<(), String>,
    groq_key_present: bool,
    plugin: Result<(), String>,
    client: Result<(), String>,
) -> (r: Result<(), String>)
    ensures
        route == LlmRoute::Groq && groq_request is Err ==> r == groq_request,
        route == LlmRoute::Groq && groq_request is Ok && groq_key_present ==> r is Ok,
        route == LlmRoute::Groq && groq_request is Ok && !groq_key_present ==> (r matches Err(e) && e@ == groq_key_message()),
        route == LlmRoute::Plugin ==> r == plugin,
        route == LlmRoute::Client ==> r == client,
{
    match route {
        LlmRoute::Groq => {
            groq_request?;
            if !groq_key_present {
                return Err(String::from_str("请先为 Groq 设置 API Key"));
            }
            Ok(())
        },
        LlmRoute::Plugin => plugin,
        LlmRoute::Client => client,
    }
}

/// How much the model should reason.
#[derive(Clone, Copy, Debug, PartialEq, Eq, Structural)]
pub enum Reasoning {
    Zero,
    Low,
    Medium,
    High,
}

/// The request options of a chat with a configured model, as plain values. The
/// temperature is kept in thousandths; `thinking` is DeepSeek's own switch.
#[derive(Debug)]
pub struct ChatSettings {
    pub temperature_permille: Option<u32>,
    pub max_tokens: Option<u32>,
    pub reasoning: Option<Reasoning>,
    pub thinking: Option<bool>,
    pub json_mode: bool,
}

pub open spec fn missing_model_message(name: Seq<char>) -> Seq<char> {
    "当前模型 "@ + name + " 的配置不存在"@
}

pub open spec fn temperature_range_message() -> Seq<char> {
    "模型温度必须在 0 到 2 之间"@
}

pub open spec fn max_tokens_message() -> Seq<char> {
    "最大输出 Token 必须是正整数"@
}

pub open spec fn unsupported_reasoning_message(value: Seq<char>) -> Seq<char> {
    "不支持的推理强度："@ + value
}

/// The reasoning level asked for: the model's own, or with `auto` (or none) the
/// scenario's default, or `auto`; `zero` becomes `auto` where the provider has no way
/// to turn thinking off.
pub open spec fn requested_reasoning(kind: Seq<char>, effort: Seq<char>, default_reasoning: Option<Seq<char>>) -> Seq<char> {
    let r = if effort == "auto"@ || effort.len() == 0 {
        match default_reasoning {
            Some(d) => d,
            None => "auto"@,
        }
    } else {
        effort
    };
    if r == "zero"@ && (llm_adapter(kind) == Some("kimi"@) || llm_adapter(kind) == Some("bigmodel"@)) { "auto"@ } else { r }
}

pub open spec fn reasoning_level(r: Seq<char>) -> Option<Reasoning> {
    if r == "zero"@ {
        Some(Reasoning::Zero)
    } else if r == "low"@ {
        Some(Reasoning::Low)
    } else if r == "medium"@ {
        Some(Reasoning::Medium)
    } else if r == "high"@ {
        Some(Reasoning::High)
    } else {
        None
    }
}

fn reasoning_of(r: &str) -> (l: Option<Reasoning>)
    ensures
        l == reasoning_level(r@),
{
    if str_eq(r, "zero") {
        Some(Reasoning::Zero)
    } else if str_eq(r, "low") {
        Some(Reasoning::Low)
    } else if str_eq(r, "medium") {
        Some(Reasoning::Medium)
    } else if str_eq(r, "high") {
        Some(Reasoning::High)
    } else {
        None
    }
}

/// The chat options for the configured model `model` (the model named `model_name` in
/// the provider's list, `None` when it has no entry) of a provider of `kind`. The
/// temperature must lie between 0 and 2 and a token limit must be positive. The
/// requested reasoning (see [`requested_reasoning`]) sets the reasoning effort; for
/// DeepSeek, `zero` switches thinking off instead and any other level switches it on.
pub fn chat_settings(
    kind: &str,
    model: Option<&crate::llm_models::LlmModelConfig>,
    model_name: &str,
    default_reasoning: Option<&str>,
) -> (r: Result<ChatSettings, String>)
    ensures
        model is None ==> r is Err && r->Err_0@ == missing_model_message(model_name@),
        model matches Some(m) ==> {
            let t = m.temperature_permille;
            let mt = m.max_tokens;
            let req = requested_reasoning(kind@, m.reasoning_effort@, match default_reasoning {
                Some(d) => Some(d@),
                None => None,
            });
            let deepseek = kind@ == "llm:deepseek"@;
            if t matches Some(v) && v > 2000 {
                r is Err && r->Err_0@ == temperature_range_message()
            } else if mt == Some(0u32) {
                r is Err && r->Err_0@ == max_tokens_message()
            } else if req == "auto"@ || req.len() == 0 {
                r matches Ok(s) && s.temperature_permille == t && s.max_tokens == mt && s.reasoning is None
                    && s.thinking is None && !s.json_mode
            } else if reasoning_level(req) is None {
                r is Err && r->Err_0@ == unsupported_reasoning_message(req)
            } else if deepseek && req == "zero"@ {
                r matches Ok(s) && s.temperature_permille == t && s.max_tokens == mt && s.reasoning is None
                    && s.thinking == Some(false) && !s.json_mode
            } else {
                r matches Ok(s) && s.temperature_permille == t && s.max_tokens == mt
                    && s.reasoning == reasoning_level(req) && s.thinking == (if deepseek { Some(true) } else { None })
                    && !s.json_mode
            }
        },
{
    let m = match model {
        None => {
            let parts = ["当前模型 ", model_name, " 的配置不存在"];
            let message = crate::text::concat_strs(&parts);
            proof {
                reveal_with_fuel(crate::text::concat_all, 4);
                assert(parts@.map_values(|p: &str| p@) =~= seq!["当前模型 "@, model_name@, " 的配置不存在"@]);
            }
            return Err(message);
        },
        Some(m) => m,
    };
    match m.temperature_permille {
        Some(v) => {
            if v > 2000 {
                return Err(String::from_str("模型温度必须在 0 到 2 之间"));
            }
        },
        None => {},
    }
    if m.max_tokens == Some(0u32) {
        return Err(String::from_str("最大输出 Token 必须是正整数"));
    }
    let deepseek = str_eq(kind, "llm:deepseek");
    let effort = m.reasoning_effort.as_str();
    let configured: &str = if str_eq(effort, "auto") || effort.is_empty() {
        match default_reasoning {
            Some(d) => d,
            None => "auto",
        }
    } else {
        effort
    };
    let configured: &str = if str_eq(configured, "zero") && !supports_explicit_reasoning_zero(kind) {
        "auto"
    } else {
        configured
    };
    if str_eq(configured, "auto") || configured.is_empty() {
        return Ok(ChatSettings {
            temperature_permille: m.temperature_permille,
            max_tokens: m.max_tokens,
            reasoning: None,
            thinking: None,
            json_mode: false,
        });
    }
    let level = reasoning_of(configured);
    match level {
        None => {
            let parts = ["不支持的推理强度：", configured];
            let message = crate::text::concat_strs(&parts);
            proof {
                reveal_with_fuel(crate::text::concat_all, 3);
                assert(parts@.map_values(|p: &str| p@) =~= seq!["不支持的推理强度："@, configured@]);
            }
            Err(message)
        },
        Some(l) => {
            if deepseek && str_eq(configured, "zero") {
                Ok(ChatSettings {
                    temperature_permille: m.temperature_permille,
                    max_tokens: m.max_tokens,
                    reasoning: None,
                    thinking: Some(false),
                    json_mode: false,
                })
            } else {
                Ok(ChatSettings {
                    temperature_permille: m.temperature_permille,
                    max_tokens: m.max_tokens,
                    reasoning: Some(l),
                    thinking: if deepseek { Some(true) } else { None },
                    json_mode: false,
                })
            }
        },
    }
}

/// The same options asking for a JSON object as the answer.
pub fn structured_settings(s: ChatSettings) -> (r: ChatSettings)
    ensures
        r == (ChatSettings { json_mode: true, ..s }),
{
    ChatSettings { json_mode: true, ..s }
}

/// Whether a model's reasoning setting, with the scenario's default, switches thinking
/// off.
pub open spec fn thinking_off(effort: Seq<char>, default_reasoning: Option<Seq<char>>) -> bool {
    effort == "zero"@ || ((effort == "auto"@ || effort.len() == 0) && default_reasoning == Some("zero"@))
}

/// Seconds a request may take: DeepSeek thinks longer and gets 90, unless thinking is
/// switched off for the model (see [`requested_reasoning`]); everything else 30.
pub fn request_timeout_secs(
    kind: &str,
    model: Option<&crate::llm_models::LlmModelConfig>,
    default_reasoning: Option<&str>,
) -> (secs: u64)
    ensures
        secs == (if kind@ == "llm:deepseek"@ && !(model matches Some(m) && thinking_off(
            m.reasoning_effort@,
            match default_reasoning {
                Some(d) => Some(d@),
                None => None,
            },
        )) { 90u64 } else { 30u64 }),
{
    if !str_eq(kind, "llm:deepseek") {
        return 30;
    }
    let disabled = match model {
        Some(m) => {
            let e = m.reasoning_effort.as_str();
            str_eq(e, "zero") || ((str_eq(e, "auto") || e.is_empty()) && match default_reasoning {
                Some(d) => str_eq(d, "zero"),
                None => false,
            })
        },
        None => false,
    };
    if disabled { 30 } else { 90 }
}

} // verus!

verus! {

/// An event of a streamed chat answer, as far as the answer text is concerned.
pub enum StreamEvent {
    /// A piece of the answer.
    Chunk(String),
    /// A piece of the reasoning.
    ReasoningChunk(String),
    /// The end of the stream, with the first captured answer text and the captured
    /// reasoning when the service reported them.
    End(Option<String>, Option<String>),
    /// Any other event: the start, tool calls, signatures.
    Other,
}

/// The answer and the reasoning after one more event: pieces are appended; at the end
/// the captured texts stand in for an answer or a reasoning that no piece filled.
pub open spec fn stream_step(output: Seq<char>, reasoning: Seq<char>, event: StreamEvent) -> (Seq<char>, Seq<char>) {
    match event {
        StreamEvent::Chunk(c) => (output + c@, reasoning),
        StreamEvent::ReasoningChunk(c) => (output, reasoning + c@),
        StreamEvent::End(text, captured) => (
            match text {
                Some(t) => if output.len() == 0 { t@ } else { output },
                None => output,
            },
            match captured {
                Some(r) => if reasoning.len() == 0 { r@ } else { reasoning },
                None => reasoning,
            },
        ),
        StreamEvent::Other => (output, reasoning),
    }
}

fn appended(a: &str, b: &str) -> (r: String)
    ensures
        r@ == a@ + b@,
{
    let mut v = chars_of(a);
    let w = chars_of(b);
    push_all(&mut v, w.as_slice());
    string_of(v.as_slice())
}

/// Folds one event of a streamed answer into the answer and reasoning so far.
pub fn apply_stream_event(output: &mut String, reasoning: &mut String, event: StreamEvent)
    ensures
        (final(output)@, final(reasoning)@) == stream_step(old(output)@, old(reasoning)@, event),
{
    match event {
        StreamEvent::Chunk(c) => {
            *output = appended(output.as_str(), c.as_str());
        },
        StreamEvent::ReasoningChunk(c) => {
            *reasoning = appended(reasoning.as_str(), c.as_str());
        },
        StreamEvent::End(text, captured) => {
            if let Some(t) = text {
                if chars_of(output.as_str()).len() == 0 {
                    *output = t;
                }
            }
            if let Some(r) = captured {
                if chars_of(reasoning.as_str()).len() == 0 {
                    *reasoning = r;
                }
            }
        },
        StreamEvent::Other => {},
    }
}

/// The result of a streamed answer once the stream ended: the final text after the
/// reasoning blocks, as [`final_text_from_output`] takes it, and the reasoning trimmed.
pub fn finish_stream(output: &str, reasoning: &str) -> (r: Result<(String, String), String>)
    ensures
        strip_thinking(trim(output@)) is None ==> r is Err && r->Err_0@ == unfinished_thinking_message(),
        strip_thinking(trim(output@)) matches Some(f) ==> ({
            let t = trim(f);
            &&& (t.len() == 0 || contains(t, think_close())) ==> r is Err && r->Err_0@ == no_final_text_message()
            &&& !(t.len() == 0 || contains(t, think_close())) ==> r is Ok && r->Ok_0.0@ == t
                && r->Ok_0.1@ == trim(reasoning@)
        }),
{
    match final_text_from_output(output) {
        Ok(text) => {
            let rc = chars_of(reasoning);
            let trimmed = trim_chars(rc.as_slice());
            Ok((text, string_of(trimmed.as_slice())))
        },
        Err(e) => Err(e),
    }
}

} // verus!

verus! {

/// Who speaks a chat message.
#[derive(Clone, Copy, Debug, PartialEq, Eq, Structural)]
pub enum ChatRole {
    System,
    User,
    Assistant,
}

/// One message of a chat request.
#[derive(Debug)]
pub struct ChatMessage {
    pub role: ChatRole,
    pub content: String,
}

pub open spec fn message_views(v: Seq<ChatMessage>) -> Seq<(ChatRole, Seq<char>)> {
    v.map_values(|m: ChatMessage| (m.role, m.content@))
}

/// The earlier turns of a conversation as messages: each user prompt, then its answer.
pub open spec fn turn_messages(history: Seq<(Seq<char>, Seq<char>)>) -> Seq<(ChatRole, Seq<char>)>
    decreases history.len(),
{
    if history.len() == 0 {
        Seq::empty()
    } else {
        turn_messages(history.drop_last()) + seq![(ChatRole::User, history.last().0), (ChatRole::Assistant, history.last().1)]
    }
}

pub open spec fn turn_views(v: Seq<(String, String)>) -> Seq<(Seq<char>, Seq<char>)> {
    v.map_values(|t: (String, String)| (t.0@, t.1@))
}

/// The messages of a chat request: the system prompt, the earlier turns in order (each
/// user prompt followed by its answer), then the new user prompt.
pub fn chat_messages(system_prompt: &str, history: &[(String, String)], user_prompt: &str) -> (m: Vec<ChatMessage>)
    ensures
        message_views(m@) == seq![(ChatRole::System, system_prompt@)] + turn_messages(turn_views(history@))
            + seq![(ChatRole::User, user_prompt@)],
{
    let mut m: Vec<ChatMessage> = Vec::new();
    m.push(ChatMessage { role: ChatRole::System, content: String::from_str(system_prompt) });
    let ghost hv = turn_views(history@);
    let mut i: usize = 0;
    while i < history.len()
        invariant
            i <= history@.len(),
            hv == turn_views(history@),
            message_views(m@) == seq![(ChatRole::System, system_prompt@)] + turn_messages(hv.take(i as int)),
        decreases history@.len() - i,
    {
        let ghost before = message_views(m@);
        m.push(ChatMessage { role: ChatRole::User, content: history[i].0.clone() });
        m.push(ChatMessage { role: ChatRole::Assistant, content: history[i].1.clone() });
        proof {
            assert(hv.take(i + 1).drop_last() =~= hv.take(i as int));
            assert(hv.take(i + 1).last() == hv[i as int]);
            assert(message_views(m@) =~= before + seq![(ChatRole::User, hv[i as int].0), (ChatRole::Assistant, hv[i as int].1)]);
        }
        i += 1;
    }
    m.push(ChatMessage { role: ChatRole::User, content: String::from_str(user_prompt) });
    proof { assert(hv.take(i as int) =~= hv); }
    m
}

} // verus!
