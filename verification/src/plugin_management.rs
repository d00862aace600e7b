//! Provider plugin management: which command-line arguments name plugin packages,
//! and the window label of a provider's login flow.
use vstd::prelude::*;
use crate::json::{Json, member, get_member};
use crate::sorting::{keyed_sort, keyed_view, sort_keyed, map_items, lemma_keyed_sort_map};
use crate::llm_models::dedup;
use crate::text::{chars_of, exec_eq_ignore_ascii_case, eq_ignore_ascii_case, is_ascii_alnum, exec_is_ascii_alnum, str_eq, string_of, contains};

verus! {

/// File extension of provider plugin packages.
pub open spec fn package_extension() -> Seq<char> {
    "sayit"@
}

/// Whether a path extension marks a plugin package, ignoring ASCII case.
pub fn is_sayit_extension(extension: &str) -> (b: bool)
    ensures
        b == eq_ignore_ascii_case(extension@, package_extension()),
{
    exec_eq_ignore_ascii_case(extension, "sayit")
}

/// `s` without the repeats of an earlier element.
pub open spec fn first_occurrences(s: Seq<Seq<char>>) -> Seq<Seq<char>>
    decreases s.len(),
{
    if s.len() == 0 {
        s
    } else if first_occurrences(s.drop_last()).contains(s.last()) {
        first_occurrences(s.drop_last())
    } else {
        first_occurrences(s.drop_last()).push(s.last())
    }
}

/// Law: keeping first occurrences leaves every element exactly once.
pub proof fn lemma_first_occurrences(s: Seq<Seq<char>>)
    ensures
        first_occurrences(s).no_duplicates(),
        forall|x: Seq<char>| first_occurrences(s).contains(x) <==> s.contains(x),
    decreases s.len(),
{
    if s.len() > 0 {
        let init = s.drop_last();
        lemma_first_occurrences(init);
        let f = first_occurrences(init);
        assert(s =~= init.push(s.last()));
        assert forall|x: Seq<char>| first_occurrences(s).contains(x) <==> s.contains(x) by {
            if s.contains(x) && x != s.last() {
                let i = choose|i: int| 0 <= i < s.len() && s[i] == x;
                assert(init[i] == x);
            }
            if init.contains(x) {
                let i = choose|i: int| 0 <= i < init.len() && init[i] == x;
                assert(s[i] == x);
            }
            if !f.contains(s.last()) && first_occurrences(s).contains(x) && x != s.last() {
                let i = choose|i: int| 0 <= i < f.len() + 1 && f.push(s.last())[i] == x;
                assert(f[i] == x);
            }
            if !f.contains(s.last()) && f.contains(x) {
                let i = choose|i: int| 0 <= i < f.len() && f[i] == x;
                assert(f.push(s.last())[i] == x);
            }
            if x == s.last() {
                assert(s[s.len() - 1] == x);
                if !f.contains(x) {
                    assert(f.push(x)[f.len() as int] == x);
                }
            }
        }
        if !f.contains(s.last()) {
            let r = f.push(s.last());
            assert forall|i: int, j: int| 0 <= i < r.len() && 0 <= j < r.len() && i != j implies r[i] != r[j] by {
                if i < f.len() && j < f.len() {
                } else if i < f.len() {
                    assert(f.contains(r[i]));
                } else {
                    assert(f.contains(r[j]));
                }
            }
        }
    }
}

pub open spec fn strs(v: Seq<String>) -> Seq<Seq<char>> {
    v.map_values(|s: String| s@)
}

/// `resolved` with the repeats of an earlier path left out.
fn keep_first_occurrences(resolved: Vec<String>) -> (paths: Vec<String>)
    ensures
        strs(paths@) == first_occurrences(strs(resolved@)),
        strs(paths@).no_duplicates(),
        forall|x: Seq<char>| strs(paths@).contains(x) <==> strs(resolved@).contains(x),
{
    let ghost all = strs(resolved@);
    let mut paths: Vec<String> = Vec::new();
    let mut i: usize = 0;
    while i < resolved.len()
        invariant
            i <= resolved@.len(),
            all == strs(resolved@),
            strs(paths@) == first_occurrences(all.take(i as int)),
        decreases resolved@.len() - i,
    {
        proof {
            assert(all.take(i + 1).drop_last() =~= all.take(i as int));
            assert(all.take(i + 1).last() == resolved@[i as int]@);
        }
        let ghost seen = strs(paths@);
        let mut found = false;
        let mut j: usize = 0;
        while j < paths.len()
            invariant
                j <= paths@.len(),
                i < resolved@.len(),
                seen == strs(paths@),
                found == (exists|k: int| 0 <= k < j && seen[k] == resolved@[i as int]@),
            decreases paths@.len() - j,
        {
            if str_eq(paths[j].as_str(), resolved[i].as_str()) {
                found = true;
            }
            proof {
                assert(seen[j as int] == paths@[j as int]@);
                if !found {
                    assert forall|k: int| 0 <= k < j + 1 implies seen[k] != resolved@[i as int]@ by {}
                }
            }
            j += 1;
        }
        proof {
            if found {
                let k = choose|k: int| 0 <= k < j && seen[k] == resolved@[i as int]@;
                assert(seen.contains(resolved@[i as int]@));
            } else {
                assert(!seen.contains(resolved@[i as int]@));
            }
        }
        if !found {
            let ghost before = paths@;
            paths.push(resolved[i].clone());
            proof { assert(strs(paths@) =~= strs(before).push(resolved@[i as int]@)); }
        }
        i += 1;
    }
    proof {
        assert(all.take(i as int) =~= all);
        lemma_first_occurrences(all);
    }
    paths
}

pub open spec fn opt_view(o: Option<String>) -> Option<Seq<char>> {
    match o {
        Some(s) => Some(s@),
        None => None,
    }
}

/// Of each argument, its path extension and its canonical path when it names an
/// existing file: the paths of those whose extension is the package extension,
/// ignoring ASCII case, in argument order.
pub open spec fn package_candidates(c: Seq<(Option<Seq<char>>, Option<Seq<char>>)>) -> Seq<Seq<char>>
    decreases c.len(),
{
    if c.len() == 0 {
        Seq::empty()
    } else {
        let prev = package_candidates(c.drop_last());
        match c.last() {
            (Some(e), Some(p)) => if eq_ignore_ascii_case(e, package_extension()) { prev.push(p) } else { prev },
            _ => prev,
        }
    }
}

pub open spec fn candidate_views(c: Seq<(Option<String>, Option<String>)>) -> Seq<(Option<Seq<char>>, Option<Seq<char>>)> {
    c.map_values(|x: (Option<String>, Option<String>)| (opt_view(x.0), opt_view(x.1)))
}

/// The package paths to import, given each argument's path extension and its
/// canonical path when it names an existing file: the paths of the arguments with the
/// package extension (ASCII case ignored), in argument order, each once.
pub fn select_package_paths(candidates: Vec<(Option<String>, Option<String>)>) -> (paths: Vec<String>)
    ensures
        strs(paths@) == first_occurrences(package_candidates(candidate_views(candidates@))),
        strs(paths@).no_duplicates(),
{
    let ghost all = candidate_views(candidates@);
    let mut kept: Vec<String> = Vec::new();
    let mut i: usize = 0;
    while i < candidates.len()
        invariant
            i <= candidates@.len(),
            all == candidate_views(candidates@),
            strs(kept@) == package_candidates(all.take(i as int)),
        decreases candidates@.len() - i,
    {
        proof {
            assert(all.take(i + 1).drop_last() =~= all.take(i as int));
            assert(all.take(i + 1).last() == all[i as int]);
        }
        match (&candidates[i].0, &candidates[i].1) {
            (Some(e), Some(p)) => {
                if is_sayit_extension(e.as_str()) {
                    let ghost before = kept@;
                    kept.push(p.clone());
                    proof { assert(strs(kept@) =~= strs(before).push(p@)); }
                }
            },
            _ => {},
        }
        i += 1;
    }
    proof { assert(all.take(i as int) =~= all); }
    let paths = keep_first_occurrences(kept);
    proof { lemma_first_occurrences(package_candidates(all)); }
    paths
}

/// Position of the last `.` among the first `i` characters of `a`, or -1.
pub open spec fn last_dot(a: Seq<char>, i: int) -> int
    decreases i,
{
    if i <= 0 {
        -1
    } else if a[i - 1] == '.' {
        i - 1
    } else {
        last_dot(a, i - 1)
    }
}

/// An argument with no `/`, `\` or `:`: a bare file name on every platform.
pub open spec fn plain_name(a: Seq<char>) -> bool {
    !a.contains('/') && !a.contains('\\') && !a.contains(':')
}

/// The extension of a bare file name: what follows its last `.`; none for `..`, for
/// a name without a `.`, and for one whose only `.` is its first character.
pub open spec fn name_extension(a: Seq<char>) -> Option<Seq<char>> {
    let k = last_dot(a, a.len() as int);
    if a == ".."@ || k <= 0 { None } else { Some(a.skip(k + 1)) }
}

/// What `Path::extension` can give for `argument`: text without a `.` that follows a
/// `.` in the argument; for a bare file name exactly [`name_extension`].
pub open spec fn extension_of(argument: Seq<char>, e: Option<Seq<char>>) -> bool {
    &&& e matches Some(x) ==> !x.contains('.') && contains(argument, seq!['.'] + x)
    &&& plain_name(argument) ==> e == name_extension(argument)
}

/// `std::path::Path::extension` of an argument, as text. The extension is the part of
/// the file name after its last `.` (none when the name has no `.`, when its only `.`
/// is its first character, or for `..`), so it holds no `.` and follows a `.` of the
/// argument. Which part of the argument is the file name depends on the platform's
/// separators, so only for an argument without `/`, `\` or `:`, whose file name is the
/// whole argument on every platform, is the extension itself stated.
#[verifier::external_body]
fn path_extension(argument: &str) -> (r: Option<String>)
    ensures
        extension_of(argument@, opt_view(r)),
{
    std::path::Path::new(argument).extension().and_then(|e| e.to_str()).map(|e| e.to_string())
}

/// An extension that marks a plugin package.
pub open spec fn package_ext(e: Option<Seq<char>>) -> bool {
    e matches Some(x) && eq_ignore_ascii_case(x, package_extension())
}

/// Whether a command-line argument names a plugin package by its extension (ASCII case
/// ignored), the extension being what `Path::extension` gives for it.
pub fn names_package(argument: &str) -> (b: bool)
    ensures
        exists|e: Option<Seq<char>>| #[trigger] extension_of(argument@, e) && b == package_ext(e),
        plain_name(argument@) ==> b == package_ext(name_extension(argument@)),
{
    let ext = path_extension(argument);
    let b = match &ext {
        Some(e) => is_sayit_extension(e.as_str()),
        None => false,
    };
    proof {
        assert(extension_of(argument@, opt_view(ext)) && b == package_ext(opt_view(ext)));
    }
    b
}

/// `paths` is the selection for the arguments with the extensions `exts`.
pub open spec fn selected_with(args: Seq<(String, Option<String>)>, exts: Seq<Option<Seq<char>>>, paths: Seq<Seq<char>>) -> bool {
    &&& exts.len() == args.len()
    &&& forall|i: int| 0 <= i < exts.len() ==> extension_of(args[i].0@, #[trigger] exts[i])
    &&& paths == first_occurrences(package_candidates(Seq::new(args.len(), |i: int| (exts[i], opt_view(args[i].1)))))
}

/// The package paths among the command-line arguments, each given with its canonical
/// path when it names an existing file: the paths of the arguments whose extension is
/// `sayit` (ASCII case ignored), in argument order, each once. The extension of an
/// argument is what `Path::extension` gives for it (see [`extension_of`]); for an
/// argument without `/`, `\` or `:` it is [`name_extension`].
pub fn sayit_paths_from_args(args: Vec<(String, Option<String>)>) -> (paths: Vec<String>)
    ensures
        exists|exts: Seq<Option<Seq<char>>>| #[trigger] selected_with(args@, exts, strs(paths@)),
        strs(paths@).no_duplicates(),
{
    let mut candidates: Vec<(Option<String>, Option<String>)> = Vec::new();
    let ghost mut exts: Seq<Option<Seq<char>>> = Seq::empty();
    let mut i: usize = 0;
    while i < args.len()
        invariant
            i <= args@.len(),
            candidates@.len() == i,
            exts.len() == i,
            forall|k: int| 0 <= k < i ==> extension_of(args@[k].0@, #[trigger] exts[k]),
            forall|k: int| 0 <= k < i ==> (#[trigger] candidate_views(candidates@)[k]) == (exts[k], opt_view(args@[k].1)),
        decreases args@.len() - i,
    {
        let ext = path_extension(args[i].0.as_str());
        let path: Option<String> = match &args[i].1 {
            Some(p) => Some(p.clone()),
            None => None,
        };
        let ghost old_c = candidates@;
        let ghost old_e = exts;
        proof { exts = exts.push(opt_view(ext)); }
        candidates.push((ext, path));
        proof {
            assert forall|k: int| 0 <= k < i + 1 implies (#[trigger] candidate_views(candidates@)[k]) == (exts[k], opt_view(args@[k].1)) by {
                if k < i {
                    assert(candidates@[k] == old_c[k]);
                    assert(candidate_views(old_c)[k] == (old_e[k], opt_view(args@[k].1)));
                } else {
                    assert(candidates@[k] == (ext, path));
                }
            }
        }
        i += 1;
    }
    proof {
        assert(candidate_views(candidates@) =~= Seq::new(args@.len(), |k: int| (exts[k], opt_view(args@[k].1))));
    }
    let paths = select_package_paths(candidates);
    proof { assert(selected_with(args@, exts, strs(paths@))); }
    paths
}

/// The login window label of a provider: `plugin-login-` and the provider id with
/// every character that is not an ASCII letter or digit replaced by `-`.
pub open spec fn login_label(provider_id: Seq<char>) -> Seq<char> {
    "plugin-login-"@ + provider_id.map_values(|c: char| if is_ascii_alnum(c) { c } else { '-' })
}

pub fn login_window_label(provider_id: &str) -> (label: String)
    ensures
        label@ == login_label(provider_id@),
{
    let id = chars_of(provider_id);
    let mut out = chars_of("plugin-login-");
    let ghost head = out@;
    let mut i: usize = 0;
    while i < id.len()
        invariant
            i <= id@.len(),
            out@ == head + id@.take(i as int).map_values(|c: char| if is_ascii_alnum(c) { c } else { '-' }),
        decreases id@.len() - i,
    {
        let c = id[i];
        out.push(if exec_is_ascii_alnum(c) { c } else { '-' });
        proof {
            assert(id@.take(i + 1).map_values(|c: char| if is_ascii_alnum(c) { c } else { '-' }) =~= id@.take(
                i as int,
            ).map_values(|c: char| if is_ascii_alnum(c) { c } else { '-' }).push(
                if is_ascii_alnum(c) { c } else { '-' },
            ));
        }
        i += 1;
    }
    proof { assert(id@.take(i as int) =~= id@); }
    string_of(out.as_slice())
}

/// Current time for plugin records, in Unix milliseconds.
pub fn now_epoch_ms() -> u64 {
    crate::clock::unix_millis()
}

} // verus!

verus! {

/// The `name` of a cookie object, when it is a string.
pub open spec fn cookie_name(cookie: Json) -> Option<Seq<char>> {
    match cookie {
        Json::Object(e) => match member(e@, "name"@) {
            Some(Json::Str(n)) => Some(n@),
            _ => None,
        },
        _ => None,
    }
}

/// The cookie names, in order, skipping cookies without one.
pub open spec fn cookie_names(cookies: Seq<Json>) -> Seq<Seq<char>>
    decreases cookies.len(),
{
    if cookies.len() == 0 {
        Seq::empty()
    } else {
        match cookie_name(cookies.last()) {
            Some(n) => cookie_names(cookies.drop_last()).push(n),
            None => cookie_names(cookies.drop_last()),
        }
    }
}

fn cookie_name_exec(cookie: &Json) -> (r: Option<String>)
    ensures
        match cookie_name(*cookie) {
            Some(n) => r matches Some(s) && s@ == n,
            None => r is None,
        },
{
    match cookie {
        Json::Object(e) => match get_member(e, "name") {
            Some(Json::Str(n)) => Some(n.clone()),
            _ => None,
        },
        _ => None,
    }
}

fn cookie_name_vec(cookies: &[Json]) -> (r: Vec<String>)
    ensures
        strs(r@) == cookie_names(cookies@),
{
    let mut r: Vec<String> = Vec::new();
    let mut i: usize = 0;
    while i < cookies.len()
        invariant
            i <= cookies@.len(),
            strs(r@) == cookie_names(cookies@.take(i as int)),
        decreases cookies@.len() - i,
    {
        proof {
            assert(cookies@.take(i + 1).drop_last() =~= cookies@.take(i as int));
            assert(cookies@.take(i + 1).last() == cookies@[i as int]);
        }
        match cookie_name_exec(&cookies[i]) {
            Some(n) => {
                let ghost before = r@;
                r.push(n);
                proof { assert(strs(r@) =~= strs(before).push(r@[before.len() as int]@)); }
            },
            None => {},
        }
        i += 1;
    }
    proof { assert(cookies@.take(i as int) =~= cookies@); }
    r
}

/// The names of the captured cookies, sorted by code point, each once.
pub open spec fn sorted_cookie_names(cookies: Seq<Json>) -> Seq<Seq<char>> {
    dedup(keyed_sort(cookie_names(cookies).map_values(|n: Seq<char>| (n, n))).map_values(|p: (Seq<char>, Seq<char>)| p.1))
}

pub fn browser_cookie_names(cookies: &[Json]) -> (names: Vec<String>)
    ensures
        strs(names@) == sorted_cookie_names(cookies@),
{
    let names = cookie_name_vec(cookies);
    let ghost ns = strs(names@);
    let mut keyed: Vec<(Vec<char>, String)> = Vec::new();
    let mut i: usize = 0;
    while i < names.len()
        invariant
            i <= names@.len(),
            ns == strs(names@),
            map_items(keyed_view(keyed@), |s: String| s@) == ns.take(i as int).map_values(|n: Seq<char>| (n, n)),
        decreases names@.len() - i,
    {
        let key = chars_of(names[i].as_str());
        let ghost before = keyed@;
        keyed.push((key, names[i].clone()));
        proof {
            assert(map_items(keyed_view(keyed@), |s: String| s@) =~= map_items(keyed_view(before), |s: String| s@).push(
                (ns[i as int], ns[i as int]),
            ));
            assert(ns.take(i + 1).map_values(|n: Seq<char>| (n, n)) =~= ns.take(i as int).map_values(|n: Seq<char>| (n, n)).push(
                (ns[i as int], ns[i as int]),
            ));
        }
        i += 1;
    }
    proof { assert(ns.take(i as int) =~= ns); }
    let ghost kv = keyed_view(keyed@);
    let sorted = sort_keyed(keyed);
    proof { lemma_keyed_sort_map(kv, |s: String| s@); }
    let ghost sv = keyed_view(sorted@);
    let mut out: Vec<String> = Vec::new();
    let mut j: usize = 0;
    while j < sorted.len()
        invariant
            j <= sorted@.len(),
            sv == keyed_view(sorted@),
            strs(out@) == dedup(sv.take(j as int).map_values(|p: (Seq<char>, String)| p.1@)),
        decreases sorted@.len() - j,
    {
        let ghost t = sv.take(j + 1).map_values(|p: (Seq<char>, String)| p.1@);
        proof {
            assert(t.drop_last() =~= sv.take(j as int).map_values(|p: (Seq<char>, String)| p.1@));
            assert(t.last() == sorted@[j as int].1@);
            if j >= 1 {
                assert(t[j - 1] == sorted@[j - 1].1@);
            }
        }
        if j == 0 || !str_eq(sorted[j].1.as_str(), sorted[j - 1].1.as_str()) {
            let ghost before = out@;
            out.push(sorted[j].1.clone());
            proof {
                assert(strs(out@) =~= strs(before).push(sorted@[j as int].1@));
                if j == 0 {
                    assert(t =~= seq![t[0]]);
                }
            }
        }
        j += 1;
    }
    proof {
        assert(sv.take(j as int) =~= sv);
        let target = keyed_sort(ns.map_values(|n: Seq<char>| (n, n)));
        assert(target == map_items(sv, |s: String| s@));
        assert(sv.map_values(|p: (Seq<char>, String)| p.1@) =~= target.map_values(|p: (Seq<char>, Seq<char>)| p.1));
    }
    out
}

/// The required cookies the browser session lacks, in the order they are required.
pub open spec fn missing_cookies(cookies: Seq<Json>, required: Seq<Seq<char>>) -> Seq<Seq<char>> {
    required.filter(|name: Seq<char>| !cookie_names(cookies).contains(name))
}

pub fn missing_required_cookies(cookies: &[Json], required: &Vec<String>) -> (missing: Vec<String>)
    ensures
        strs(missing@) == missing_cookies(cookies@, strs(required@)),
{
    let names = cookie_name_vec(cookies);
    let ghost ns = strs(names@);
    let ghost rs = strs(required@);
    let mut missing: Vec<String> = Vec::new();
    let mut i: usize = 0;
    while i < required.len()
        invariant
            i <= required@.len(),
            ns == strs(names@),
            ns == cookie_names(cookies@),
            rs == strs(required@),
            strs(missing@) == rs.take(i as int).filter(|name: Seq<char>| !ns.contains(name)),
        decreases required@.len() - i,
    {
        let mut found = false;
        let mut k: usize = 0;
        while k < names.len()
            invariant
                k <= names@.len(),
                i < required@.len(),
                ns == strs(names@),
                found == (exists|x: int| 0 <= x < k && ns[x] == required@[i as int]@),
            decreases names@.len() - k,
        {
            if str_eq(names[k].as_str(), required[i].as_str()) {
                found = true;
            }
            proof {
                assert(ns[k as int] == names@[k as int]@);
                if !found {
                    assert forall|x: int| 0 <= x < k + 1 implies ns[x] != required@[i as int]@ by {}
                }
            }
            k += 1;
        }
        proof {
            assert(rs.take(i + 1).drop_last() =~= rs.take(i as int));
            assert(rs[i as int] == required@[i as int]@);
            rs.take(i as int).lemma_filter_push(rs[i as int], |name: Seq<char>| !ns.contains(name));
            assert(rs.take(i + 1) =~= rs.take(i as int).push(rs[i as int]));
            if found {
                let x = choose|x: int| 0 <= x < k && ns[x] == required@[i as int]@;
                assert(ns.contains(rs[i as int]));
            } else {
                assert(!ns.contains(rs[i as int]));
            }
        }
        if !found {
            let ghost before = missing@;
            missing.push(required[i].clone());
            proof { assert(strs(missing@) =~= strs(before).push(required@[i as int]@)); }
        }
        i += 1;
    }
    proof { assert(rs.take(i as int) =~= rs); }
    missing
}

/// How a declared plugin action is carried out.
#[derive(Debug, PartialEq, Eq)]
pub enum PluginActionRoute {
    OpenLogin,
    SyncSession,
    ClearSession,
    /// Any other action is handed to the plugin itself.
    Invoke(String),
}

pub open spec fn untrusted_message() -> Seq<char> {
    "插件签名密钥尚未受信任，请先在插件管理中确认发布者"@
}

pub open spec fn undeclared_action_message(action: Seq<char>) -> Seq<char> {
    "插件未声明操作："@ + action
}

pub open spec fn declared_action(declared: Seq<String>, action: Seq<char>) -> bool {
    exists|i: int| 0 <= i < declared.len() && (#[trigger] declared[i])@ == action
}

/// Routes action `action` of a plugin that declares `declared` and whose signing key
/// has trust level `trust`: an undeclared action and an untrusted key are refused; the
/// login, session synchronisation and session clearing actions are the host's own.
pub fn plugin_action_route(action: &str, declared: &Vec<String>, trust: &str) -> (r: Result<PluginActionRoute, String>)
    ensures
        !declared_action(declared@, action@) ==> r is Err && r->Err_0@ == undeclared_action_message(action@),
        declared_action(declared@, action@) && trust@ == "signed-untrusted"@ ==> r is Err
            && r->Err_0@ == untrusted_message(),
        declared_action(declared@, action@) && trust@ != "signed-untrusted"@ ==> r is Ok && (
            if action@ == "openLogin"@ {
                r->Ok_0 == PluginActionRoute::OpenLogin
            } else if action@ == "syncSession"@ {
                r->Ok_0 == PluginActionRoute::SyncSession
            } else if action@ == "clearSession"@ {
                r->Ok_0 == PluginActionRoute::ClearSession
            } else {
                r->Ok_0 matches PluginActionRoute::Invoke(a) && a@ == action@
            }),
{
    let mut found = false;
    let mut i: usize = 0;
    while i < declared.len()
        invariant
            i <= declared@.len(),
            found == exists|j: int| 0 <= j < i && (#[trigger] declared@[j])@ == action@,
        decreases declared@.len() - i,
    {
        if str_eq(declared[i].as_str(), action) {
            found = true;
        }
        i += 1;
    }
    if !found {
        let parts = ["插件未声明操作：", action];
        let m = crate::text::concat_strs(&parts);
        proof {
            reveal_with_fuel(crate::text::concat_all, 3);
            assert(parts@.map_values(|p: &str| p@) =~= seq!["插件未声明操作："@, action@]);
        }
        return Err(m);
    }
    if str_eq(trust, "signed-untrusted") {
        return Err(String::from_str("插件签名密钥尚未受信任，请先在插件管理中确认发布者"));
    }
    if str_eq(action, "openLogin") {
        Ok(PluginActionRoute::OpenLogin)
    } else if str_eq(action, "syncSession") {
        Ok(PluginActionRoute::SyncSession)
    } else if str_eq(action, "clearSession") {
        Ok(PluginActionRoute::ClearSession)
    } else {
        Ok(PluginActionRoute::Invoke(String::from_str(action)))
    }
}

pub open spec fn starts_with(s: Seq<char>, p: Seq<char>) -> bool {
    s.len() >= p.len() && s.take(p.len() as int) == p
}

pub(crate) fn exec_starts_with(s: &str, p: &str) -> (b: bool)
    ensures
        b == starts_with(s@, p@),
{
    let sv = chars_of(s);
    let pv = chars_of(p);
    if sv.len() < pv.len() {
        return false;
    }
    let mut i: usize = 0;
    while i < pv.len()
        invariant
            i <= pv@.len(),
            pv@.len() <= sv@.len(),
            sv@ == s@,
            pv@ == p@,
            forall|j: int| 0 <= j < i ==> sv@[j] == pv@[j],
        decreases pv@.len() - i,
    {
        if sv[i] != pv[i] {
            proof {
                let t = sv@.take(pv@.len() as int);
                assert(t[i as int] != pv@[i as int]);
                assert(t != pv@);
            }
            return false;
        }
        i += 1;
    }
    assert(sv@.take(pv@.len() as int) =~= pv@);
    true
}

/// Whether a provider profile of `kind` belongs to a plugin: a script plugin or a
/// model pack.
pub fn plugin_profile_kind(kind: &str) -> (b: bool)
    ensures
        b == (starts_with(kind@, "plugin:"@) || starts_with(kind@, "model-pack:"@)),
{
    exec_starts_with(kind, "plugin:") || exec_starts_with(kind, "model-pack:")
}

} // verus!
