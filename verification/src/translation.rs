//! Choosing the provider that translates subtitles.
use vstd::prelude::*;
use crate::text::{chars_of, concat_all, concat_strs, exec_is_blank, is_blank, str_eq, string_of};

verus! {

/// Why translation cannot start without a model.
pub open spec fn no_model_message() -> Seq<char> {
    "请先在“智能助手”中选择翻译模型"@
}

/// A model is selected unless the name is blank or `none`.
pub open spec fn model_selected(model: Seq<char>) -> bool {
    !is_blank(model) && model != "none"@
}

/// The provider that translates with `model`: the plugin provider that registered the
/// model, otherwise the default translation provider; an error when no model is selected.
pub fn resolve_provider(model: &str, plugin_provider: Option<String>, default_provider: String) -> (r: Result<
    String,
    String,
>)
    ensures
        !model_selected(model@) ==> (r matches Err(e) && e@ == no_model_message()),
        model_selected(model@) ==> (r matches Ok(id) && id@ == (match plugin_provider {
            Some(p) => p@,
            None => default_provider@,
        })),
{
    if exec_is_blank(model) || str_eq(model, "none") {
        return Err(String::from_str("请先在“智能助手”中选择翻译模型"));
    }
    match plugin_provider {
        Some(p) => Ok(p),
        None => Ok(default_provider),
    }
}

/// The error for a provider profile that is missing or disabled.
pub open spec fn provider_unavailable_message(provider_id: Seq<char>) -> Seq<char> {
    "翻译供应商 "@ + provider_id + " 不存在或未启用"@
}

/// Translation can start with `model` when a model is selected and the provider chosen
/// for it (see [`resolve_provider`]) exists and is enabled.
pub fn validate_available(model: &str, plugin_provider: Option<String>, default_provider: String, provider_enabled: bool)
    -> (r: Result<String, String>)
    ensures
        !model_selected(model@) ==> (r matches Err(e) && e@ == no_model_message()),
        model_selected(model@) && provider_enabled ==> (r matches Ok(id) && id@ == (match plugin_provider {
            Some(p) => p@,
            None => default_provider@,
        })),
        model_selected(model@) && !provider_enabled ==> (r matches Err(e) && e@ == provider_unavailable_message(
            match plugin_provider {
                Some(p) => p@,
                None => default_provider@,
            },
        )),
{
    let id = resolve_provider(model, plugin_provider, default_provider)?;
    if !provider_enabled {
        let parts = [ "翻译供应商 ", id.as_str(), " 不存在或未启用" ];
        let message = concat_strs(&parts);
        proof {
            reveal_with_fuel(concat_all, 4);
            assert(parts@.map_values(|p: &str| p@) =~= seq!["翻译供应商 "@, id@, " 不存在或未启用"@]);
            assert(seq!["翻译供应商 "@, id@, " 不存在或未启用"@].drop_last().drop_last().drop_last() =~= Seq::<Seq<char>>::empty());
        }
        return Err(message);
    }
    Ok(id)
}

} // verus!
