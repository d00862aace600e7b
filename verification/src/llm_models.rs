//! The model list of a large-language-model provider: merging a freshly fetched list of
//! model names into the configured models, and deciding whether a fetch still belongs
//! to the provider connection that requested it.
use vstd::prelude::*;
use crate::sorting::{keyed_sort, keyed_view, sort_keyed, map_items, lemma_keyed_sort_map, lemma_keyed_sort_multiset};
use crate::text::{chars_of, nonblank_trims, str_chars_eq, str_eq, string_of, trim, trim_chars};

verus! {

/// Where a configured model came from.
#[derive(Clone, Copy, Debug, PartialEq, Eq, Structural)]
pub enum LlmModelSource {
    Remote,
    Manual,
}

/// Whether the provider still lists a model.
#[derive(Clone, Copy, Debug, PartialEq, Eq, Structural)]
pub enum LlmModelAvailability {
    Available,
    Missing,
}

/// A configured model with its per-model options. The sampling temperature is kept in
/// thousandths.
#[derive(Debug, PartialEq, Eq)]
pub struct LlmModelConfig {
    pub name: String,
    pub source: LlmModelSource,
    pub availability: LlmModelAvailability,
    pub reasoning_effort: String,
    pub temperature_permille: Option<u32>,
    pub max_tokens: Option<u32>,
}

pub struct ModelView {
    pub name: Seq<char>,
    pub source: LlmModelSource,
    pub availability: LlmModelAvailability,
    pub reasoning_effort: Seq<char>,
    pub temperature_permille: Option<u32>,
    pub max_tokens: Option<u32>,
}

impl View for LlmModelConfig {
    type V = ModelView;

    open spec fn view(&self) -> ModelView {
        ModelView {
            name: self.name@,
            source: self.source,
            availability: self.availability,
            reasoning_effort: self.reasoning_effort@,
            temperature_permille: self.temperature_permille,
            max_tokens: self.max_tokens,
        }
    }
}

pub open spec fn model_views(v: Seq<LlmModelConfig>) -> Seq<ModelView> {
    v.map_values(|m: LlmModelConfig| m@)
}

/// A model the provider listed, with default options.
pub open spec fn remote_model(name: Seq<char>) -> ModelView {
    ModelView {
        name,
        source: LlmModelSource::Remote,
        availability: LlmModelAvailability::Available,
        reasoning_effort: Seq::empty(),
        temperature_permille: None,
        max_tokens: None,
    }
}

/// A model the user entered, with default options.
pub open spec fn manual_model(name: Seq<char>) -> ModelView {
    ModelView { source: LlmModelSource::Manual, ..remote_model(name) }
}

/// Whether the user changed any option of the model.
pub open spec fn custom_options(m: ModelView) -> bool {
    m.reasoning_effort.len() > 0 || m.temperature_permille is Some || m.max_tokens is Some
}

impl LlmModelConfig {
    pub fn remote(name: &str) -> (m: Self)
        ensures
            m@ == remote_model(name@),
    {
        LlmModelConfig {
            name: string_of(chars_of(name).as_slice()),
            source: LlmModelSource::Remote,
            availability: LlmModelAvailability::Available,
            reasoning_effort: String::new(),
            temperature_permille: None,
            max_tokens: None,
        }
    }

    pub fn manual(name: &str) -> (m: Self)
        ensures
            m@ == manual_model(name@),
    {
        LlmModelConfig {
            name: string_of(chars_of(name).as_slice()),
            source: LlmModelSource::Manual,
            availability: LlmModelAvailability::Available,
            reasoning_effort: String::new(),
            temperature_permille: None,
            max_tokens: None,
        }
    }

    pub fn has_custom_options(&self) -> (b: bool)
        ensures
            b == custom_options(self@),
    {
        !self.reasoning_effort.as_str().is_empty() || self.temperature_permille.is_some() || self.max_tokens.is_some()
    }

    /// A copy under `name`, with the given source and availability.
    fn relabel(&self, name: String, source: LlmModelSource, availability: LlmModelAvailability) -> (m: Self)
        ensures
            m@ == (ModelView { name: name@, source, availability, ..self@ }),
    {
        LlmModelConfig {
            name,
            source,
            availability,
            reasoning_effort: self.reasoning_effort.clone(),
            temperature_permille: self.temperature_permille,
            max_tokens: self.max_tokens,
        }
    }
}

/// What `str::to_lowercase` returns for `s`: full Unicode lowercase mapping.
pub uninterp spec fn lowercase(s: Seq<char>) -> Seq<char>;

/// `str::to_lowercase`; its result is named by [`lowercase`].
#[verifier::external_body]
fn to_lowercase(s: &str) -> (r: String)
    ensures
        r@ == lowercase(s@),
{
    s.to_lowercase()
}

/// Drops each name equal to the one before it.
pub open spec fn dedup(s: Seq<Seq<char>>) -> Seq<Seq<char>>
    decreases s.len(),
{
    if s.len() <= 1 {
        s
    } else if s.last() == s[s.len() - 2] {
        dedup(s.drop_last())
    } else {
        dedup(s.drop_last()).push(s.last())
    }
}

/// Names sorted by their lowercase form, equal forms keeping their order.
pub open spec fn sort_names(names: Seq<Seq<char>>) -> Seq<Seq<char>> {
    keyed_sort(names.map_values(|n: Seq<char>| (lowercase(n), n))).map_values(|p: (Seq<char>, Seq<char>)| p.1)
}

/// Models sorted by the lowercase form of their names, equal forms keeping their order.
pub open spec fn sort_models(models: Seq<ModelView>) -> Seq<ModelView> {
    keyed_sort(models.map_values(|m: ModelView| (lowercase(m.name), m))).map_values(|p: (Seq<char>, ModelView)| p.1)
}

/// The fetched names that go into the list: trimmed, non-empty, sorted, without repeats.
pub open spec fn listed_names(names: Seq<Seq<char>>) -> Seq<Seq<char>> {
    dedup(sort_names(nonblank_trims(names)))
}

/// Index of the first configured model called `name`, from `i` on.
pub open spec fn find_model(existing: Seq<ModelView>, name: Seq<char>, i: int) -> Option<int>
    decreases existing.len() - i,
{
    if i < 0 || i >= existing.len() {
        None
    } else if existing[i].name == name {
        Some(i)
    } else {
        find_model(existing, name, i + 1)
    }
}

/// The entry for a listed name: the first configured model of that name keeps its
/// options, otherwise a new remote model; either way it is a remote, available model.
pub open spec fn listed_entry(existing: Seq<ModelView>, name: Seq<char>) -> ModelView {
    match find_model(existing, name, 0) {
        Some(i) => ModelView {
            name,
            source: LlmModelSource::Remote,
            availability: LlmModelAvailability::Available,
            ..existing[i]
        },
        None => remote_model(name),
    }
}

/// The configured models that stay although the provider no longer lists them, given
/// the names already in the list: manual models, and remote models that are selected
/// or have custom options, marked missing. A name already in the list is not repeated.
pub open spec fn kept_models(existing: Seq<ModelView>, taken: Seq<Seq<char>>, current: Seq<char>) -> Seq<ModelView>
    decreases existing.len(),
{
    if existing.len() == 0 {
        Seq::empty()
    } else {
        let m = existing[0];
        let rest = existing.drop_first();
        if taken.contains(m.name) {
            kept_models(rest, taken, current)
        } else if m.source == LlmModelSource::Manual {
            seq![m] + kept_models(rest, taken.push(m.name), current)
        } else if m.name == current || custom_options(m) {
            seq![ModelView { availability: LlmModelAvailability::Missing, ..m }] + kept_models(
                rest,
                taken.push(m.name),
                current,
            )
        } else {
            kept_models(rest, taken, current)
        }
    }
}

/// The merged model list.
pub open spec fn merged_models(existing: Seq<ModelView>, names: Seq<Seq<char>>, current: Seq<char>) -> Seq<ModelView> {
    let listed = listed_names(names);
    sort_models(listed.map_values(|n: Seq<char>| listed_entry(existing, n)) + kept_models(existing, listed, current))
}

pub open spec fn strs(v: Seq<String>) -> Seq<Seq<char>> {
    v.map_values(|s: String| s@)
}

/// The fetched names trimmed, without the blank ones.
fn trimmed_names(names: &Vec<String>) -> (r: Vec<String>)
    ensures
        strs(r@) == nonblank_trims(strs(names@)),
{
    let ghost all = strs(names@);
    let mut r: Vec<String> = Vec::new();
    let mut i: usize = 0;
    while i < names.len()
        invariant
            i <= names@.len(),
            all == strs(names@),
            strs(r@) == nonblank_trims(all.take(i as int)),
        decreases names@.len() - i,
    {
        proof {
            assert(all.take(i + 1).drop_last() =~= all.take(i as int));
            assert(all.take(i + 1).last() == names@[i as int]@);
        }
        let t = trim_chars(chars_of(names[i].as_str()).as_slice());
        if t.len() > 0 {
            let ghost before = r@;
            r.push(string_of(t.as_slice()));
            proof { assert(strs(r@) =~= strs(before).push(t@)); }
        }
        i += 1;
    }
    proof { assert(all.take(i as int) =~= all); }
    r
}

/// Names sorted by their lowercase form (see [`sort_names`]).
fn sorted_names(names: Vec<String>) -> (r: Vec<String>)
    ensures
        strs(r@) == sort_names(strs(names@)),
{
    let ghost ns = strs(names@);
    let mut keyed: Vec<(Vec<char>, String)> = Vec::new();
    let mut rest = names;
    let ghost mut k: int = 0;
    while rest.len() > 0
        invariant
            0 <= k <= ns.len(),
            strs(rest@) == ns.skip(k),
            rest@.len() == ns.len() - k,
            map_items(keyed_view(keyed@), |s: String| s@) == ns.take(k).map_values(|n: Seq<char>| (lowercase(n), n)),
        decreases rest@.len(),
    {
        let ghost rest0 = rest@;
        let name = rest.remove(0);
        proof {
            assert(strs(rest0)[0] == name@);
            assert forall|i: int| 0 <= i < rest@.len() implies #[trigger] strs(rest@)[i] == ns.skip(k + 1)[i] by {
                assert(rest@[i] == rest0[i + 1]);
                assert(strs(rest0)[i + 1] == ns.skip(k)[i + 1]);
            }
            assert(strs(rest@) =~= ns.skip(k + 1));
        }
        let key = chars_of(to_lowercase(name.as_str()).as_str());
        let ghost before = keyed@;
        keyed.push((key, name));
        proof {
            assert(ns[k] == name@);
            assert(map_items(keyed_view(keyed@), |s: String| s@) =~= map_items(keyed_view(before), |s: String| s@).push(
                (lowercase(name@), name@),
            ));
            assert(ns.take(k + 1).map_values(|n: Seq<char>| (lowercase(n), n)) =~= ns.take(k).map_values(
                |n: Seq<char>| (lowercase(n), n),
            ).push((lowercase(name@), name@)));
            k = k + 1;
        }
    }
    proof { assert(ns.take(k) =~= ns); }
    let ghost kv = keyed_view(keyed@);
    let sorted = sort_keyed(keyed);
    proof { lemma_keyed_sort_map(kv, |s: String| s@); }
    let mut r: Vec<String> = Vec::new();
    let mut rest2 = sorted;
    let ghost sv = keyed_view(rest2@);
    let ghost mut j: int = 0;
    while rest2.len() > 0
        invariant
            0 <= j <= sv.len(),
            keyed_view(rest2@) == sv.skip(j),
            rest2@.len() == sv.len() - j,
            strs(r@) == sv.take(j).map_values(|p: (Seq<char>, String)| p.1@),
        decreases rest2@.len(),
    {
        let ghost rest0 = rest2@;
        let item = rest2.remove(0);
        proof {
            assert(keyed_view(rest0)[0] == (item.0@, item.1));
            assert forall|i: int| 0 <= i < rest2@.len() implies #[trigger] keyed_view(rest2@)[i] == sv.skip(j + 1)[i] by {
                assert(rest2@[i] == rest0[i + 1]);
                assert(keyed_view(rest0)[i + 1] == sv.skip(j)[i + 1]);
            }
            assert(keyed_view(rest2@) =~= sv.skip(j + 1));
        }
        let ghost before = r@;
        r.push(item.1);
        proof {
            assert(strs(r@) =~= strs(before).push(item.1@));
            assert(sv.take(j + 1).map_values(|p: (Seq<char>, String)| p.1@) =~= sv.take(j).map_values(
                |p: (Seq<char>, String)| p.1@,
            ).push(item.1@));
            j = j + 1;
        }
    }
    proof {
        assert(sv.take(j) =~= sv);
        let target = keyed_sort(ns.map_values(|n: Seq<char>| (lowercase(n), n)));
        assert(target == map_items(sv, |s: String| s@));
        assert(sv.map_values(|p: (Seq<char>, String)| p.1@) =~= target.map_values(|p: (Seq<char>, Seq<char>)| p.1));
    }
    r
}

fn dedup_names(names: &Vec<String>) -> (r: Vec<String>)
    ensures
        strs(r@) == dedup(strs(names@)),
{
    let ghost all = strs(names@);
    let mut r: Vec<String> = Vec::new();
    let mut i: usize = 0;
    while i < names.len()
        invariant
            i <= names@.len(),
            all == strs(names@),
            strs(r@) == dedup(all.take(i as int)),
        decreases names@.len() - i,
    {
        proof {
            assert(all.take(i + 1).drop_last() =~= all.take(i as int));
            assert(all.take(i + 1).last() == names@[i as int]@);
            if i >= 1 {
                assert(all.take(i + 1)[i - 1] == names@[i - 1]@);
            }
        }
        if i == 0 || !str_eq(names[i].as_str(), names[i - 1].as_str()) {
            let ghost before = r@;
            r.push(names[i].clone());
            proof {
                assert(strs(r@) =~= strs(before).push(names@[i as int]@));
                if i == 0 {
                    assert(all.take(1) =~= seq![all[0]]);
                    assert(dedup(all.take(1)) == all.take(1));
                }
            }
        }
        i += 1;
    }
    proof { assert(all.take(i as int) =~= all); }
    r
}

/// The names that go into the list (see [`listed_names`]).
fn listed_name_vec(names: Vec<String>) -> (r: Vec<String>)
    ensures
        strs(r@) == listed_names(strs(names@)),
{
    let t = trimmed_names(&names);
    let s = sorted_names(t);
    dedup_names(&s)
}

pub open spec fn names_of(ms: Seq<ModelView>) -> Seq<Seq<char>> {
    ms.map_values(|m: ModelView| m.name)
}

pub proof fn lemma_find_model(existing: Seq<ModelView>, name: Seq<char>, i: int)
    requires
        0 <= i,
    ensures
        match find_model(existing, name, i) {
            Some(k) => i <= k < existing.len() && existing[k].name == name,
            None => forall|k: int| i <= k < existing.len() ==> existing[k].name != name,
        },
    decreases existing.len() - i,
{
    if i < existing.len() && existing[i].name != name {
        lemma_find_model(existing, name, i + 1);
    }
}

proof fn lemma_sort_models_names(ms: Seq<ModelView>, name: Seq<char>)
    ensures
        names_of(sort_models(ms)).contains(name) <==> names_of(ms).contains(name),
{
    broadcast use vstd::seq_lib::group_to_multiset_ensures;
    let pairs = ms.map_values(|m: ModelView| (lowercase(m.name), m));
    let sorted = keyed_sort(pairs);
    lemma_keyed_sort_multiset(pairs);
    let r = sort_models(ms);
    if names_of(ms).contains(name) {
        let i = choose|i: int| 0 <= i < names_of(ms).len() && names_of(ms)[i] == name;
        assert(pairs[i] == (lowercase(ms[i].name), ms[i]));
        assert(pairs.to_multiset().count(pairs[i]) > 0);
        assert(sorted.contains(pairs[i]));
        let j = choose|j: int| 0 <= j < sorted.len() && sorted[j] == pairs[i];
        assert(r[j] == ms[i]);
        assert(names_of(r)[j] == name);
    }
    if names_of(r).contains(name) {
        let j = choose|j: int| 0 <= j < names_of(r).len() && names_of(r)[j] == name;
        assert(sorted.to_multiset().count(sorted[j]) > 0);
        assert(pairs.contains(sorted[j]));
        let i = choose|i: int| 0 <= i < pairs.len() && pairs[i] == sorted[j];
        assert(names_of(ms)[i] == name);
    }
}

/// Whether the merge must keep a configured model although the provider may no longer
/// list it: it was added by hand, is the selected model, or has custom options.
pub open spec fn must_keep(m: ModelView, current: Seq<char>) -> bool {
    m.source == LlmModelSource::Manual || m.name == current || custom_options(m)
}

proof fn lemma_kept_includes(existing: Seq<ModelView>, taken: Seq<Seq<char>>, current: Seq<char>, i: int)
    requires
        0 <= i < existing.len(),
        must_keep(existing[i], current),
    ensures
        taken.contains(existing[i].name) || names_of(kept_models(existing, taken, current)).contains(existing[i].name),
    decreases existing.len(),
{
    let m = existing[0];
    let rest = existing.drop_first();
    let name = existing[i].name;
    let k = kept_models(existing, taken, current);
    if i == 0 {
        if !taken.contains(m.name) {
            assert(names_of(k)[0] == name);
        }
    } else {
        assert(rest[i - 1] == existing[i]);
        if taken.contains(m.name) {
            lemma_kept_includes(rest, taken, current, i - 1);
        } else if must_keep(m, current) {
            let t2 = taken.push(m.name);
            lemma_kept_includes(rest, t2, current, i - 1);
            let kr = kept_models(rest, t2, current);
            if t2.contains(name) && !taken.contains(name) {
                let j = choose|j: int| 0 <= j < t2.len() && t2[j] == name;
                if j < taken.len() {
                    assert(taken[j] == name);
                }
                assert(name == m.name);
                assert(names_of(k)[0] == name);
            } else if names_of(kr).contains(name) {
                let j = choose|j: int| 0 <= j < names_of(kr).len() && names_of(kr)[j] == name;
                assert(names_of(k)[j + 1] == name);
            }
        } else {
            lemma_kept_includes(rest, taken, current, i - 1);
        }
    }
}

proof fn lemma_kept_excludes(existing: Seq<ModelView>, taken: Seq<Seq<char>>, current: Seq<char>, name: Seq<char>)
    requires
        forall|j: int| 0 <= j < existing.len() && (#[trigger] existing[j]).name == name ==> !must_keep(existing[j], current),
    ensures
        !names_of(kept_models(existing, taken, current)).contains(name),
    decreases existing.len(),
{
    if existing.len() > 0 {
        let m = existing[0];
        let rest = existing.drop_first();
        assert forall|j: int| 0 <= j < rest.len() && (#[trigger] rest[j]).name == name implies !must_keep(rest[j], current) by {
            assert(rest[j] == existing[j + 1]);
        }
        lemma_kept_excludes(rest, taken, current, name);
        lemma_kept_excludes(rest, taken.push(m.name), current, name);
        let k = kept_models(existing, taken, current);
        if !taken.contains(m.name) && must_keep(m, current) {
            let kr = kept_models(rest, taken.push(m.name), current);
            assert(m.name != name);
            if names_of(k).contains(name) {
                let j = choose|j: int| 0 <= j < names_of(k).len() && names_of(k)[j] == name;
                assert(j != 0);
                assert(names_of(kr)[j - 1] == name);
            }
        }
    }
}

/// Law: refreshing the model list never loses a model added by hand, the selected model
/// or a model with custom options: its name is still in the merged list.
pub proof fn law_merge_keeps_configured_models(existing: Seq<ModelView>, names: Seq<Seq<char>>, current: Seq<char>, i: int)
    requires
        0 <= i < existing.len(),
        must_keep(existing[i], current),
    ensures
        names_of(merged_models(existing, names, current)).contains(existing[i].name),
{
    let listed = listed_names(names);
    let l = listed.map_values(|n: Seq<char>| listed_entry(existing, n));
    let k = kept_models(existing, listed, current);
    let name = existing[i].name;
    lemma_kept_includes(existing, listed, current, i);
    if listed.contains(name) {
        let j = choose|j: int| 0 <= j < listed.len() && listed[j] == name;
        assert(names_of(l + k)[j] == name);
    } else {
        let j = choose|j: int| 0 <= j < names_of(k).len() && names_of(k)[j] == name;
        assert(names_of(l + k)[l.len() + j] == name);
    }
    lemma_sort_models_names(l + k, name);
}

/// Law: a model the provider no longer lists leaves the merged list when no configured
/// entry of that name was added by hand, selected, or given custom options.
pub proof fn law_merge_drops_stale_models(existing: Seq<ModelView>, names: Seq<Seq<char>>, current: Seq<char>, name: Seq<char>)
    requires
        !listed_names(names).contains(name),
        forall|j: int| 0 <= j < existing.len() && (#[trigger] existing[j]).name == name ==> !must_keep(existing[j], current),
    ensures
        !names_of(merged_models(existing, names, current)).contains(name),
{
    let listed = listed_names(names);
    let l = listed.map_values(|n: Seq<char>| listed_entry(existing, n));
    let k = kept_models(existing, listed, current);
    lemma_kept_excludes(existing, listed, current, name);
    if names_of(l + k).contains(name) {
        let j = choose|j: int| 0 <= j < names_of(l + k).len() && names_of(l + k)[j] == name;
        if j < l.len() {
            assert(listed[j] == name);
        } else {
            assert(names_of(k)[j - l.len()] == name);
        }
    }
    lemma_sort_models_names(l + k, name);
}

fn find_model_exec(existing: &Vec<LlmModelConfig>, name: &str) -> (r: Option<usize>)
    ensures
        r matches Some(j) ==> find_model(model_views(existing@), name@, 0) == Some(j as int),
        r is None ==> find_model(model_views(existing@), name@, 0) is None,
{
    let ghost ev = model_views(existing@);
    let mut i: usize = 0;
    while i < existing.len()
        invariant
            i <= existing@.len(),
            ev == model_views(existing@),
            find_model(ev, name@, 0) == find_model(ev, name@, i as int),
        decreases existing@.len() - i,
    {
        if str_eq(existing[i].name.as_str(), name) {
            return Some(i);
        }
        i += 1;
    }
    None
}

fn name_taken(merged: &Vec<LlmModelConfig>, name: &str) -> (b: bool)
    ensures
        b == names_of(model_views(merged@)).contains(name@),
{
    let ghost ns = names_of(model_views(merged@));
    let mut i: usize = 0;
    while i < merged.len()
        invariant
            i <= merged@.len(),
            ns == names_of(model_views(merged@)),
            forall|j: int| 0 <= j < i ==> ns[j] != name@,
        decreases merged@.len() - i,
    {
        if str_eq(merged[i].name.as_str(), name) {
            assert(ns[i as int] == name@);
            return true;
        }
        i += 1;
    }
    false
}

/// Models sorted by the lowercase form of their names (see [`sort_models`]).
fn sorted_models(models: Vec<LlmModelConfig>) -> (r: Vec<LlmModelConfig>)
    ensures
        model_views(r@) == sort_models(model_views(models@)),
{
    let ghost ms = model_views(models@);
    let mut keyed: Vec<(Vec<char>, LlmModelConfig)> = Vec::new();
    let mut rest = models;
    let ghost mut k: int = 0;
    while rest.len() > 0
        invariant
            0 <= k <= ms.len(),
            model_views(rest@) == ms.skip(k),
            rest@.len() == ms.len() - k,
            map_items(keyed_view(keyed@), |m: LlmModelConfig| m@) == ms.take(k).map_values(|m: ModelView| (lowercase(m.name), m)),
        decreases rest@.len(),
    {
        let ghost rest0 = rest@;
        let model = rest.remove(0);
        proof {
            assert(model_views(rest0)[0] == model@);
            assert forall|i: int| 0 <= i < rest@.len() implies #[trigger] model_views(rest@)[i] == ms.skip(k + 1)[i] by {
                assert(rest@[i] == rest0[i + 1]);
                assert(model_views(rest0)[i + 1] == ms.skip(k)[i + 1]);
            }
            assert(model_views(rest@) =~= ms.skip(k + 1));
        }
        let key = chars_of(to_lowercase(model.name.as_str()).as_str());
        let ghost before = keyed@;
        let ghost mv = model@;
        keyed.push((key, model));
        proof {
            assert(ms[k] == mv);
            assert(map_items(keyed_view(keyed@), |m: LlmModelConfig| m@) =~= map_items(keyed_view(before), |m: LlmModelConfig| m@).push(
                (lowercase(mv.name), mv),
            ));
            assert(ms.take(k + 1).map_values(|m: ModelView| (lowercase(m.name), m)) =~= ms.take(k).map_values(
                |m: ModelView| (lowercase(m.name), m),
            ).push((lowercase(mv.name), mv)));
            k = k + 1;
        }
    }
    proof { assert(ms.take(k) =~= ms); }
    let ghost kv = keyed_view(keyed@);
    let sorted = sort_keyed(keyed);
    proof { lemma_keyed_sort_map(kv, |m: LlmModelConfig| m@); }
    let mut r: Vec<LlmModelConfig> = Vec::new();
    let mut rest2 = sorted;
    let ghost sv = keyed_view(rest2@);
    let ghost mut j: int = 0;
    while rest2.len() > 0
        invariant
            0 <= j <= sv.len(),
            keyed_view(rest2@) == sv.skip(j),
            rest2@.len() == sv.len() - j,
            model_views(r@) == sv.take(j).map_values(|p: (Seq<char>, LlmModelConfig)| p.1@),
        decreases rest2@.len(),
    {
        let ghost rest0 = rest2@;
        let item = rest2.remove(0);
        proof {
            assert(keyed_view(rest0)[0] == (item.0@, item.1));
            assert forall|i: int| 0 <= i < rest2@.len() implies #[trigger] keyed_view(rest2@)[i] == sv.skip(j + 1)[i] by {
                assert(rest2@[i] == rest0[i + 1]);
                assert(keyed_view(rest0)[i + 1] == sv.skip(j)[i + 1]);
            }
            assert(keyed_view(rest2@) =~= sv.skip(j + 1));
        }
        let ghost before = r@;
        let ghost iv = item.1@;
        r.push(item.1);
        proof {
            assert(model_views(r@) =~= model_views(before).push(iv));
            assert(sv.take(j + 1).map_values(|p: (Seq<char>, LlmModelConfig)| p.1@) =~= sv.take(j).map_values(
                |p: (Seq<char>, LlmModelConfig)| p.1@,
            ).push(iv));
            j = j + 1;
        }
    }
    proof {
        assert(sv.take(j) =~= sv);
        let target = keyed_sort(ms.map_values(|m: ModelView| (lowercase(m.name), m)));
        assert(target == map_items(sv, |m: LlmModelConfig| m@));
        assert(sv.map_values(|p: (Seq<char>, LlmModelConfig)| p.1@) =~= target.map_values(|p: (Seq<char>, ModelView)| p.1));
    }
    r
}

/// Merges the fetched `names` into the configured models (see [`merged_models`]): the
/// listed names become available remote models that keep the options of a configured
/// model of the same name; manual models stay; remote models the provider no longer
/// lists stay, marked missing, only when selected or customised; the list is sorted by
/// lowercase name.
pub fn merge_remote_models(existing: Vec<LlmModelConfig>, names: Vec<String>, current_model: &str) -> (r: Vec<
    LlmModelConfig,
>)
    ensures
        model_views(r@) == merged_models(model_views(existing@), strs(names@), current_model@),
{
    let ghost ev = model_views(existing@);
    let listed = listed_name_vec(names);
    let ghost ln = strs(listed@);
    let mut merged: Vec<LlmModelConfig> = Vec::new();
    let mut i: usize = 0;
    while i < listed.len()
        invariant
            i <= listed@.len(),
            ln == strs(listed@),
            ev == model_views(existing@),
            model_views(merged@) == ln.take(i as int).map_values(|n: Seq<char>| listed_entry(ev, n)),
        decreases listed@.len() - i,
    {
        let name = &listed[i];
        proof { lemma_find_model(ev, name@, 0); }
        assert(ln[i as int] == name@);
        let model = match find_model_exec(&existing, name.as_str()) {
            Some(j) => {
                let m = existing[j].relabel(name.clone(), LlmModelSource::Remote, LlmModelAvailability::Available);
                assert(ev[j as int] == existing@[j as int]@);
                assert(find_model(ev, name@, 0) == Some(j as int));
                assert(m@.name == name@);
                assert(m@ == listed_entry(ev, ln[i as int]));
                m
            },
            None => {
                let m = LlmModelConfig::remote(name.as_str());
                assert(m@ == listed_entry(ev, ln[i as int]));
                m
            },
        };
        let ghost before = merged@;
        merged.push(model);
        proof {
            assert(model_views(merged@) =~= model_views(before).push(listed_entry(ev, ln[i as int])));
            assert(ln.take(i + 1).map_values(|n: Seq<char>| listed_entry(ev, n)) =~= ln.take(i as int).map_values(
                |n: Seq<char>| listed_entry(ev, n),
            ).push(listed_entry(ev, ln[i as int])));
        }
        i += 1;
    }
    proof {
        assert(ln.take(i as int) =~= ln);
        assert(names_of(model_views(merged@)) =~= ln);
    }
    let ghost entries = model_views(merged@);
    let ghost mut kept: Seq<ModelView> = Seq::empty();
    proof {
        assert(ev.skip(0) =~= ev);
        assert(entries + kept =~= entries);
        assert(kept + kept_models(ev, ln, current_model@) =~= kept_models(ev, ln, current_model@));
    }
    let mut j: usize = 0;
    while j < existing.len()
        invariant
            j <= existing@.len(),
            ev == model_views(existing@),
            model_views(merged@) == entries + kept,
            kept_models(ev, ln, current_model@) == kept + kept_models(ev.skip(j as int), names_of(model_views(merged@)), current_model@),
        decreases existing@.len() - j,
    {
        let m = &existing[j];
        let ghost mv = ev[j as int];
        let ghost taken = names_of(model_views(merged@));
        proof {
            assert(ev.skip(j as int)[0] == mv);
            assert(ev.skip(j as int).drop_first() =~= ev.skip(j + 1));
        }
        if !name_taken(&merged, m.name.as_str()) {
            let keep_missing = match m.source {
                LlmModelSource::Manual => false,
                LlmModelSource::Remote => str_eq(m.name.as_str(), current_model) || m.has_custom_options(),
            };
            if m.source == LlmModelSource::Manual || keep_missing {
                let availability = if keep_missing { LlmModelAvailability::Missing } else { m.availability };
                let copy = m.relabel(m.name.clone(), m.source, availability);
                let ghost before = merged@;
                merged.push(copy);
                proof {
                    assert(model_views(merged@) =~= model_views(before).push(copy@));
                    assert(names_of(model_views(merged@)) =~= taken.push(mv.name));
                    assert(copy@ == (if mv.source == LlmModelSource::Manual { mv } else {
                        ModelView { availability: LlmModelAvailability::Missing, ..mv }
                    }));
                    kept = kept.push(copy@);
                    assert(entries + kept =~= model_views(merged@));
                    assert(seq![copy@] + kept_models(ev.skip(j + 1), taken.push(mv.name), current_model@) =~= kept_models(
                        ev.skip(j as int),
                        taken,
                        current_model@,
                    ));
                }
            }
        }
        j += 1;
    }
    proof {
        assert(ev.skip(j as int).len() == 0);
    }
    sorted_models(merged)
}

/// The parts of a provider profile that identify its connection.
pub struct ProviderConnection {
    pub kind: String,
    pub api_key: String,
    pub endpoint: String,
}

/// Two profiles reach the same connection when the kind is equal and the API key and
/// endpoint are equal after trimming.
pub fn same_connection(left: &ProviderConnection, right: &ProviderConnection) -> (b: bool)
    ensures
        b == (left.kind@ == right.kind@ && trim(left.api_key@) == trim(right.api_key@) && trim(left.endpoint@) == trim(
            right.endpoint@,
        )),
{
    if !str_eq(left.kind.as_str(), right.kind.as_str()) {
        return false;
    }
    let la = trim_chars(chars_of(left.api_key.as_str()).as_slice());
    let ra = trim_chars(chars_of(right.api_key.as_str()).as_slice());
    if !str_chars_eq(la.as_slice(), ra.as_slice()) {
        return false;
    }
    let le = trim_chars(chars_of(left.endpoint.as_str()).as_slice());
    let re = trim_chars(chars_of(right.endpoint.as_str()).as_slice());
    str_chars_eq(le.as_slice(), re.as_slice())
}

/// When the model list was fetched, in Unix milliseconds.
pub fn now_millis() -> u64 {
    crate::clock::unix_millis_saturating()
}

/// Why a refresh keeps the old list.
pub open spec fn empty_listing_error() -> Seq<char> {
    "供应商没有返回可用模型，已保留原模型列表"@
}

/// The outcome of a model refresh: an error when every fetched name is blank (the old
/// list stays); otherwise the merged list and the selected model, which becomes the
/// first listed model when none was selected.
pub fn models_after_refresh(existing: Vec<LlmModelConfig>, names: Vec<String>, current_model: &str) -> (r: Result<
    (Vec<LlmModelConfig>, String),
    String,
>)
    ensures
        match r {
            Err(e) => nonblank_trims(strs(names@)).len() == 0 && e@ == empty_listing_error(),
            Ok((models, selected)) => {
                let merged = merged_models(model_views(existing@), strs(names@), current_model@);
                &&& nonblank_trims(strs(names@)).len() > 0
                &&& model_views(models@) == merged
                &&& selected@ == (if current_model@.len() > 0 || merged.len() == 0 {
                    current_model@
                } else {
                    merged[0].name
                })
            },
        },
{
    let trimmed = trimmed_names(&names);
    if trimmed.len() == 0 {
        return Err(String::from_str("供应商没有返回可用模型，已保留原模型列表"));
    }
    let models = merge_remote_models(existing, names, current_model);
    let selected = if !current_model.is_empty() || models.len() == 0 {
        string_of(chars_of(current_model).as_slice())
    } else {
        models[0].name.clone()
    };
    Ok((models, selected))
}

/// The protocol a provider's models are reached with.
#[derive(Clone, Copy, Debug, PartialEq, Eq, Structural)]
pub enum LlmAdapter {
    OpenAI,
    Anthropic,
    Gemini,
    OpenAIResp,
    Kimi,
    BigModel,
    Mimo,
    MiniMax,
    OpenRouter,
}

/// The protocol of adapter name `a` (the provider kind after `llm:`).
pub open spec fn adapter_of(a: Seq<char>) -> Option<LlmAdapter> {
    if a == "openai"@ || a == "custom"@ {
        Some(LlmAdapter::OpenAI)
    } else if a == "anthropic"@ {
        Some(LlmAdapter::Anthropic)
    } else if a == "gemini"@ {
        Some(LlmAdapter::Gemini)
    } else if a == "deepseek"@ || a == "volcengine"@ || a == "bailian"@ {
        Some(LlmAdapter::OpenAIResp)
    } else if a == "kimi"@ {
        Some(LlmAdapter::Kimi)
    } else if a == "bigmodel"@ {
        Some(LlmAdapter::BigModel)
    } else if a == "mimo"@ {
        Some(LlmAdapter::Mimo)
    } else if a == "minimax"@ {
        Some(LlmAdapter::MiniMax)
    } else if a == "open_router"@ {
        Some(LlmAdapter::OpenRouter)
    } else {
        None
    }
}

pub open spec fn not_llm_message() -> Seq<char> {
    "供应商不是大语言模型配置"@
}

pub open spec fn unsupported_adapter_message(a: Seq<char>) -> Seq<char> {
    "不支持的大语言模型适配器："@ + a
}

/// The protocol of a provider of `kind` (`llm:` and an adapter name).
pub fn adapter_kind(kind: &str) -> (r: Result<LlmAdapter, String>)
    ensures
        match crate::smart_text::llm_adapter(kind@) {
            None => r is Err && r->Err_0@ == not_llm_message(),
            Some(a) => match adapter_of(a) {
                Some(k) => r == Ok::<LlmAdapter, String>(k),
                None => r is Err && r->Err_0@ == unsupported_adapter_message(a),
            },
        },
{
    let a = match crate::smart_text::llm_adapter_exec(kind) {
        None => {
            return Err(String::from_str("供应商不是大语言模型配置"));
        },
        Some(a) => a,
    };
    let s = a.as_slice();
    let is = |name: &str| -> (b: bool)
        ensures b == (s@ == name@),
    {
        let n = chars_of(name);
        str_chars_eq(s, n.as_slice())
    };
    if is("openai") || is("custom") {
        Ok(LlmAdapter::OpenAI)
    } else if is("anthropic") {
        Ok(LlmAdapter::Anthropic)
    } else if is("gemini") {
        Ok(LlmAdapter::Gemini)
    } else if is("deepseek") || is("volcengine") || is("bailian") {
        Ok(LlmAdapter::OpenAIResp)
    } else if is("kimi") {
        Ok(LlmAdapter::Kimi)
    } else if is("bigmodel") {
        Ok(LlmAdapter::BigModel)
    } else if is("mimo") {
        Ok(LlmAdapter::Mimo)
    } else if is("minimax") {
        Ok(LlmAdapter::MiniMax)
    } else if is("open_router") {
        Ok(LlmAdapter::OpenRouter)
    } else {
        let name = string_of(s);
        let parts = ["不支持的大语言模型适配器：", name.as_str()];
        let message = crate::text::concat_strs(&parts);
        proof {
            reveal_with_fuel(crate::text::concat_all, 3);
            assert(parts@.map_values(|p: &str| p@) =~= seq!["不支持的大语言模型适配器："@, a@]);
        }
        Err(message)
    }
}

} // verus!

verus! {

use crate::plugin_management::{starts_with, exec_starts_with};

pub open spec fn api_key_message(display_name: Seq<char>) -> Seq<char> {
    "请先为 "@ + display_name + " 设置 API Key"@
}

pub open spec fn custom_endpoint_message() -> Seq<char> {
    "自定义大语言模型的接口地址无效"@
}

pub open spec fn responses_endpoint_message(display_name: Seq<char>) -> Seq<char> {
    display_name + " 的 Responses API 接口地址无效"@
}

/// An endpoint that names an HTTP(S) address.
pub open spec fn web_endpoint(e: Seq<char>) -> bool {
    starts_with(e, "https://"@) || starts_with(e, "http://"@)
}

/// The connection a model listing uses, from the provider's `kind`, its configured
/// `apiKey` and `endpoint` (`""` when absent) and its display name: an error without
/// an API key or for a kind that is not `llm:`; for a custom provider, or one whose
/// adapter speaks the Responses API (`uses_responses`), the configured endpoint, else
/// the adapter's default Responses endpoint (`responses_default`), which must be an
/// `http://` or `https://` address; otherwise no endpoint of its own.
pub open spec fn provider_endpoint_of(
    kind: Seq<char>,
    api_key: Seq<char>,
    endpoint: Seq<char>,
    display_name: Seq<char>,
    uses_responses: bool,
    responses_default: Option<Seq<char>>,
) -> Result<Option<Seq<char>>, Seq<char>> {
    if trim(api_key).len() == 0 {
        Err(api_key_message(display_name))
    } else if !starts_with(kind, "llm:"@) {
        Err(not_llm_message())
    } else if kind == "llm:custom"@ || uses_responses {
        let given = trim(endpoint);
        let e = if given.len() == 0 {
            match responses_default {
                Some(d) => d,
                None => Seq::empty(),
            }
        } else {
            given
        };
        if web_endpoint(e) {
            Ok(Some(e))
        } else if kind == "llm:custom"@ {
            Err(custom_endpoint_message())
        } else {
            Err(responses_endpoint_message(display_name))
        }
    } else {
        Ok(None)
    }
}

/// The endpoint a model listing connects to (see [`provider_endpoint_of`]); the
/// endpoint returned is the one the provider catalogue then normalises.
pub fn provider_endpoint(
    kind: &str,
    api_key: &str,
    endpoint: &str,
    display_name: &str,
    uses_responses: bool,
    responses_default: Option<&str>,
) -> (r: Result<Option<String>, String>)
    ensures
        match provider_endpoint_of(
            kind@, api_key@, endpoint@, display_name@, uses_responses,
            match responses_default { Some(d) => Some(d@), None => None },
        ) {
            Ok(Some(e)) => r matches Ok(Some(x)) && x@ == e,
            Ok(None) => r matches Ok(None),
            Err(m) => r matches Err(x) && x@ == m,
        },
{
    let key = trim_chars(chars_of(api_key).as_slice());
    if key.len() == 0 {
        let mut v = chars_of("请先为 ");
        let name = chars_of(display_name);
        crate::text::push_all(&mut v, name.as_slice());
        let tail = chars_of(" 设置 API Key");
        crate::text::push_all(&mut v, tail.as_slice());
        return Err(string_of(v.as_slice()));
    }
    if !exec_starts_with(kind, "llm:") {
        return Err(String::from_str("供应商不是大语言模型配置"));
    }
    let custom = str_eq(kind, "llm:custom");
    if custom || uses_responses {
        let given = trim_chars(chars_of(endpoint).as_slice());
        let e: String = if given.len() == 0 {
            match responses_default {
                Some(d) => String::from_str(d),
                None => String::new(),
            }
        } else {
            string_of(given.as_slice())
        };
        if exec_starts_with(e.as_str(), "https://") || exec_starts_with(e.as_str(), "http://") {
            return Ok(Some(e));
        }
        if custom {
            return Err(String::from_str("自定义大语言模型的接口地址无效"));
        }
        let mut v = chars_of(display_name);
        let tail = chars_of(" 的 Responses API 接口地址无效");
        crate::text::push_all(&mut v, tail.as_slice());
        return Err(string_of(v.as_slice()));
    }
    Ok(None)
}

} // verus!
