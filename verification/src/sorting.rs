//! Stable sorting of items by a text key, as `sort_by_key` does with a `String` key:
//! keys compare by code point, which is the byte order of their UTF-8 encodings.
use vstd::prelude::*;

verus! {

/// `a <= b` in lexicographic order of code points.
pub open spec fn key_le(a: Seq<char>, b: Seq<char>) -> bool
    decreases a.len(),
{
    if a.len() == 0 {
        true
    } else if b.len() == 0 {
        false
    } else if a[0] != b[0] {
        (a[0] as u32) < (b[0] as u32)
    } else {
        key_le(a.drop_first(), b.drop_first())
    }
}

/// Inserts `x` after every leading item whose key is not greater than its own.
pub open spec fn keyed_insert<A>(s: Seq<(Seq<char>, A)>, x: (Seq<char>, A)) -> Seq<(Seq<char>, A)>
    decreases s.len(),
{
    if s.len() == 0 {
        seq![x]
    } else if !key_le(s[0].0, x.0) {
        seq![x] + s
    } else {
        seq![s[0]] + keyed_insert(s.drop_first(), x)
    }
}

/// Stable sort by key: items with equal keys keep their order.
pub open spec fn keyed_sort<A>(s: Seq<(Seq<char>, A)>) -> Seq<(Seq<char>, A)>
    decreases s.len(),
{
    if s.len() == 0 {
        s
    } else {
        keyed_insert(keyed_sort(s.drop_last()), s.last())
    }
}

/// The keys and items of a keyed vector, by view of the key.
pub open spec fn keyed_view<T>(v: Seq<(Vec<char>, T)>) -> Seq<(Seq<char>, T)> {
    v.map_values(|p: (Vec<char>, T)| (p.0@, p.1))
}

pub fn key_le_exec(a: &[char], b: &[char]) -> (r: bool)
    ensures
        r == key_le(a@, b@),
{
    let n = a.len();
    let m = b.len();
    let mut i: usize = 0;
    assert(a@.skip(0) =~= a@);
    assert(b@.skip(0) =~= b@);
    while i < n && i < m && a[i] == b[i]
        invariant
            i <= n,
            i <= m,
            n == a@.len(),
            m == b@.len(),
            key_le(a@, b@) == key_le(a@.skip(i as int), b@.skip(i as int)),
        decreases n - i,
    {
        proof {
            assert(a@.skip(i as int).drop_first() =~= a@.skip(i + 1));
            assert(b@.skip(i as int).drop_first() =~= b@.skip(i + 1));
        }
        i += 1;
    }
    if i == n {
        true
    } else if i == m {
        false
    } else {
        (a[i] as u32) < (b[i] as u32)
    }
}

proof fn lemma_keyed_insert_at<A>(s: Seq<(Seq<char>, A)>, x: (Seq<char>, A), p: int)
    requires
        0 <= p <= s.len(),
        forall|j: int| 0 <= j < p ==> key_le(#[trigger] s[j].0, x.0),
        p == s.len() || !key_le(s[p].0, x.0),
    ensures
        keyed_insert(s, x) == s.insert(p, x),
    decreases p,
{
    if s.len() == 0 {
        assert(s.insert(p, x) =~= seq![x]);
    } else if p == 0 {
        assert(s.insert(0, x) =~= seq![x] + s);
    } else {
        let t = s.drop_first();
        assert forall|j: int| 0 <= j < p - 1 implies key_le(#[trigger] t[j].0, x.0) by {
            assert(t[j] == s[j + 1]);
        }
        lemma_keyed_insert_at(t, x, p - 1);
        assert(seq![s[0]] + t.insert(p - 1, x) =~= s.insert(p, x));
    }
}

/// Stable sort of `items` by their keys.
pub fn sort_keyed<T>(items: Vec<(Vec<char>, T)>) -> (out: Vec<(Vec<char>, T)>)
    ensures
        keyed_view(out@) == keyed_sort(keyed_view(items@)),
{
    let ghost all = keyed_view(items@);
    let mut rest = items;
    let mut out: Vec<(Vec<char>, T)> = Vec::new();
    let ghost mut k: int = 0;
    while rest.len() > 0
        invariant
            0 <= k <= all.len(),
            keyed_view(rest@) == all.skip(k),
            rest@.len() == all.len() - k,
            keyed_view(out@) == keyed_sort(all.take(k)),
        decreases rest@.len(),
    {
        let ghost rest0 = rest@;
        let x = rest.remove(0);
        proof {
            assert(all.take(k + 1).drop_last() =~= all.take(k));
            assert(keyed_view(rest0)[0] == (x.0@, x.1));
            assert forall|i: int| 0 <= i < rest@.len() implies #[trigger] keyed_view(rest@)[i] == all.skip(k + 1)[i] by {
                assert(rest@[i] == rest0[i + 1]);
                assert(keyed_view(rest0)[i + 1] == all.skip(k)[i + 1]);
            }
            assert(keyed_view(rest@) =~= all.skip(k + 1));
        }
        let mut p: usize = 0;
        let mut stop = false;
        while p < out.len() && !stop
            invariant
                p <= out@.len(),
                forall|j: int| 0 <= j < p ==> key_le(#[trigger] out@[j].0@, x.0@),
                stop ==> p < out@.len() && !key_le(out@[p as int].0@, x.0@),
            decreases out@.len() - p + (if stop { 0int } else { 1int }),
        {
            if !key_le_exec(out[p].0.as_slice(), x.0.as_slice()) {
                stop = true;
            } else {
                p += 1;
            }
        }
        proof {
            let m = keyed_view(out@);
            assert forall|j: int| 0 <= j < p implies key_le(#[trigger] m[j].0, x.0@) by {
                assert(m[j].0 == out@[j].0@);
            }
            lemma_keyed_insert_at(m, (x.0@, x.1), p as int);
        }
        let ghost before = out@;
        out.insert(p, x);
        proof {
            assert(keyed_view(out@) =~= keyed_view(before).insert(p as int, (x.0@, x.1)));
            k = k + 1;
        }
    }
    proof {
        assert(all.take(k) =~= all);
    }
    out
}

proof fn lemma_keyed_insert_multiset<A>(s: Seq<(Seq<char>, A)>, x: (Seq<char>, A))
    ensures
        keyed_insert(s, x).to_multiset() == s.to_multiset().insert(x),
        keyed_insert(s, x).len() == s.len() + 1,
    decreases s.len(),
{
    broadcast use vstd::seq_lib::group_to_multiset_ensures;
    if s.len() == 0 {
        assert(seq![x] =~= s.push(x));
    } else if !key_le(s[0].0, x.0) {
        vstd::seq_lib::lemma_multiset_commutative(seq![x], s);
        assert(seq![x].to_multiset() =~= Seq::<(Seq<char>, A)>::empty().push(x).to_multiset());
    } else {
        let t = s.drop_first();
        lemma_keyed_insert_multiset(t, x);
        vstd::seq_lib::lemma_multiset_commutative(seq![s[0]], keyed_insert(t, x));
        vstd::seq_lib::lemma_multiset_commutative(seq![s[0]], t);
        assert(s =~= seq![s[0]] + t);
    }
}

/// Sorting neither loses nor adds an item.
pub proof fn lemma_keyed_sort_multiset<A>(s: Seq<(Seq<char>, A)>)
    ensures
        keyed_sort(s).to_multiset() == s.to_multiset(),
        keyed_sort(s).len() == s.len(),
    decreases s.len(),
{
    broadcast use vstd::seq_lib::group_to_multiset_ensures;
    if s.len() > 0 {
        lemma_keyed_sort_multiset(s.drop_last());
        lemma_keyed_insert_multiset(keyed_sort(s.drop_last()), s.last());
        assert(s =~= s.drop_last().push(s.last()));
    }
}

/// `s` with `f` applied to every item, keys unchanged.
pub open spec fn map_items<A, B>(s: Seq<(Seq<char>, A)>, f: spec_fn(A) -> B) -> Seq<(Seq<char>, B)> {
    s.map_values(|p: (Seq<char>, A)| (p.0, f(p.1)))
}

proof fn lemma_keyed_insert_map<A, B>(s: Seq<(Seq<char>, A)>, x: (Seq<char>, A), f: spec_fn(A) -> B)
    ensures
        keyed_insert(map_items(s, f), (x.0, f(x.1))) == map_items(keyed_insert(s, x), f),
    decreases s.len(),
{
    let ms = map_items(s, f);
    if s.len() == 0 {
        assert(map_items(seq![x], f) =~= seq![(x.0, f(x.1))]);
    } else if !key_le(s[0].0, x.0) {
        assert(ms[0].0 == s[0].0);
        assert(map_items(seq![x] + s, f) =~= seq![(x.0, f(x.1))] + ms);
    } else {
        assert(ms[0].0 == s[0].0);
        lemma_keyed_insert_map(s.drop_first(), x, f);
        assert(ms.drop_first() =~= map_items(s.drop_first(), f));
        assert(map_items(seq![s[0]] + keyed_insert(s.drop_first(), x), f) =~= seq![ms[0]] + map_items(
            keyed_insert(s.drop_first(), x),
            f,
        ));
    }
}

/// Sorting by key does not look at the items, so it commutes with changing them.
pub proof fn lemma_keyed_sort_map<A, B>(s: Seq<(Seq<char>, A)>, f: spec_fn(A) -> B)
    ensures
        keyed_sort(map_items(s, f)) == map_items(keyed_sort(s), f),
    decreases s.len(),
{
    if s.len() == 0 {
        assert(map_items(s, f) =~= Seq::<(Seq<char>, B)>::empty());
        assert(map_items(keyed_sort(s), f) =~= Seq::<(Seq<char>, B)>::empty());
    } else {
        lemma_keyed_sort_map(s.drop_last(), f);
        assert(map_items(s, f).drop_last() =~= map_items(s.drop_last(), f));
        lemma_keyed_insert_map(keyed_sort(s.drop_last()), s.last(), f);
    }
}

/// `x` inserted after every leading item whose rank is not greater than its own.
pub open spec fn ranked_insert<T>(s: Seq<(u64, T)>, x: (u64, T)) -> Seq<(u64, T)>
    decreases s.len(),
{
    if s.len() == 0 {
        seq![x]
    } else if x.0 < s[0].0 {
        seq![x] + s
    } else {
        seq![s[0]] + ranked_insert(s.drop_first(), x)
    }
}

/// Stable sort by rank: items of equal rank keep their order.
pub open spec fn ranked_sort<T>(s: Seq<(u64, T)>) -> Seq<(u64, T)>
    decreases s.len(),
{
    if s.len() == 0 { s } else { ranked_insert(ranked_sort(s.drop_last()), s.last()) }
}

pub open spec fn by_rank<T>(s: Seq<(u64, T)>) -> bool {
    forall|i: int, j: int| 0 <= i < j < s.len() ==> s[i].0 <= s[j].0
}

proof fn lemma_ranked_insert_at<T>(s: Seq<(u64, T)>, x: (u64, T), p: int)
    requires
        0 <= p <= s.len(),
        forall|j: int| 0 <= j < p ==> !(x.0 < (#[trigger] s[j]).0),
        p == s.len() || x.0 < s[p].0,
    ensures
        ranked_insert(s, x) == s.insert(p, x),
    decreases p,
{
    if s.len() == 0 {
        assert(s.insert(p, x) =~= seq![x]);
    } else if p == 0 {
        assert(s.insert(0, x) =~= seq![x] + s);
    } else {
        let t = s.drop_first();
        assert forall|j: int| 0 <= j < p - 1 implies !(x.0 < (#[trigger] t[j]).0) by {
            assert(t[j] == s[j + 1]);
        }
        lemma_ranked_insert_at(t, x, p - 1);
        assert(seq![s[0]] + t.insert(p - 1, x) =~= s.insert(p, x));
    }
}

proof fn lemma_ranked_insert<T>(s: Seq<(u64, T)>, x: (u64, T))
    requires
        by_rank(s),
    ensures
        by_rank(ranked_insert(s, x)),
        ranked_insert(s, x).to_multiset() == s.to_multiset().insert(x),
        ranked_insert(s, x).len() == s.len() + 1,
    decreases s.len(),
{
    broadcast use vstd::seq_lib::group_to_multiset_ensures;
    if s.len() == 0 {
        assert(seq![x] =~= s.push(x));
    } else if x.0 < s[0].0 {
        let r = seq![x] + s;
        vstd::seq_lib::lemma_multiset_commutative(seq![x], s);
        assert(seq![x] =~= Seq::<(u64, T)>::empty().push(x));
        assert forall|i: int, j: int| 0 <= i < j < r.len() implies r[i].0 <= r[j].0 by {
            if i > 0 {
                assert(r[i] == s[i - 1] && r[j] == s[j - 1]);
            } else {
                assert(r[j] == s[j - 1]);
            }
        }
    } else {
        let t = s.drop_first();
        lemma_ranked_insert(t, x);
        let it = ranked_insert(t, x);
        let r = seq![s[0]] + it;
        vstd::seq_lib::lemma_multiset_commutative(seq![s[0]], it);
        vstd::seq_lib::lemma_multiset_commutative(seq![s[0]], t);
        assert(s =~= seq![s[0]] + t);
        assert forall|i: int, j: int| 0 <= i < j < r.len() implies r[i].0 <= r[j].0 by {
            if i > 0 {
                assert(r[i] == it[i - 1] && r[j] == it[j - 1]);
            } else {
                let y = it[j - 1];
                assert(r[j] == y);
                assert(it.to_multiset().count(y) > 0);
                if y != x {
                    assert(t.to_multiset().count(y) > 0);
                    let k = choose|k: int| 0 <= k < t.len() && t[k] == y;
                    assert(s[k + 1] == t[k]);
                }
            }
        }
    }
}

/// The ranked sort orders by rank and neither loses nor adds an item.
pub proof fn lemma_ranked_sort<T>(s: Seq<(u64, T)>)
    ensures
        by_rank(ranked_sort(s)),
        ranked_sort(s).to_multiset() == s.to_multiset(),
        ranked_sort(s).len() == s.len(),
    decreases s.len(),
{
    broadcast use vstd::seq_lib::group_to_multiset_ensures;
    if s.len() > 0 {
        lemma_ranked_sort(s.drop_last());
        lemma_ranked_insert(ranked_sort(s.drop_last()), s.last());
        assert(s =~= s.drop_last().push(s.last()));
    }
}

/// Stable sort of `items` by rank.
pub fn sort_by_rank<T>(items: Vec<(u64, T)>) -> (out: Vec<(u64, T)>)
    ensures
        out@ == ranked_sort(items@),
{
    let ghost all = items@;
    let mut rest = items;
    let mut out: Vec<(u64, T)> = Vec::new();
    let ghost mut k: int = 0;
    while rest.len() > 0
        invariant
            0 <= k <= all.len(),
            rest@ == all.skip(k),
            out@ == ranked_sort(all.take(k)),
        decreases rest@.len(),
    {
        let ghost rest0 = rest@;
        let x = rest.remove(0);
        proof {
            assert(all.take(k + 1).drop_last() =~= all.take(k));
            assert(rest0[0] == all[k]);
            assert(rest@ =~= all.skip(k + 1));
        }
        let mut p: usize = 0;
        while p < out.len() && !(x.0 < out[p].0)
            invariant
                p <= out@.len(),
                forall|j: int| 0 <= j < p ==> !(x.0 < (#[trigger] out@[j]).0),
            decreases out@.len() - p,
        {
            p += 1;
        }
        proof {
            lemma_ranked_insert_at(out@, x, p as int);
            k = k + 1;
        }
        out.insert(p, x);
    }
    proof {
        assert(all.take(k) =~= all);
    }
    out
}

} // verus!
