//! Latency samples: a bounded window per metric and nearest-rank percentiles.
use vstd::prelude::*;
use crate::sorting::{keyed_sort, keyed_view, sort_keyed, lemma_keyed_sort_map, map_items};
use crate::text::chars_of;

verus! {

pub const MAX_SAMPLES: usize = 256;

/// The samples after recording `x`: when the window holds exactly `MAX_SAMPLES`, the
/// oldest leaves first.
pub open spec fn recorded(values: Seq<u64>, x: u64) -> Seq<u64> {
    if values.len() == MAX_SAMPLES { values.drop_first().push(x) } else { values.push(x) }
}

/// Appends a sample; once the window is full the oldest sample is dropped.
pub fn record(values: &mut Vec<u64>, elapsed_ms: u64)
    ensures
        final(values)@ == recorded(old(values)@, elapsed_ms),
        old(values)@.len() <= MAX_SAMPLES ==> final(values)@.len() <= MAX_SAMPLES,
{
    if values.len() == MAX_SAMPLES {
        values.remove(0);
    }
    values.push(elapsed_ms);
}

/// The samples after recording each of `xs` in turn.
pub open spec fn recorded_all(values: Seq<u64>, xs: Seq<u64>) -> Seq<u64>
    decreases xs.len(),
{
    if xs.len() == 0 { values } else { recorded(recorded_all(values, xs.drop_last()), xs.last()) }
}

/// Law: recording samples into a window of at most `MAX_SAMPLES` keeps exactly the
/// most recent `MAX_SAMPLES` of all samples, in recording order.
pub proof fn law_record_keeps_latest_samples(values: Seq<u64>, xs: Seq<u64>)
    requires
        values.len() <= MAX_SAMPLES,
    ensures
        recorded_all(values, xs) == (if values.len() + xs.len() > MAX_SAMPLES {
            (values + xs).skip(values.len() + xs.len() - MAX_SAMPLES)
        } else {
            values + xs
        }),
    decreases xs.len(),
{
    if xs.len() > 0 {
        let init = xs.drop_last();
        law_record_keeps_latest_samples(values, init);
        let all = values + xs;
        assert((values + init).push(xs.last()) =~= all);
        let prev = recorded_all(values, init);
        if values.len() + init.len() > MAX_SAMPLES {
            let k = values.len() + init.len() - MAX_SAMPLES;
            assert(prev.len() == MAX_SAMPLES);
            assert(prev.drop_first().push(xs.last()) =~= all.skip(k + 1));
        } else if values.len() + init.len() == MAX_SAMPLES {
            assert(prev.drop_first().push(xs.last()) =~= all.skip(1));
        } else {
            assert(prev.push(xs.last()) =~= all);
        }
    }
}

/// The sample at rank `((n - 1) * p) / 100` of already sorted values, or 0 when empty.
pub fn percentile(values: &[u64], rank: usize) -> (v: u64)
    requires
        values@.len() > 0 ==> (values@.len() - 1) * rank <= usize::MAX,
        values@.len() > 0 ==> (values@.len() - 1) * rank / 100 < values@.len(),
    ensures
        values@.len() == 0 ==> v == 0,
        values@.len() > 0 ==> v == values@[((values@.len() - 1) * rank / 100) as int],
{
    if values.len() == 0 {
        return 0;
    }
    let index = ((values.len() - 1) * rank) / 100;
    values[index]
}

/// `x` inserted after every leading value not greater than it.
pub open spec fn insert_sorted(s: Seq<u64>, x: u64) -> Seq<u64>
    decreases s.len(),
{
    if s.len() == 0 {
        seq![x]
    } else if x < s[0] {
        seq![x] + s
    } else {
        seq![s[0]] + insert_sorted(s.drop_first(), x)
    }
}

/// The values in ascending order.
pub open spec fn sorted_values(s: Seq<u64>) -> Seq<u64>
    decreases s.len(),
{
    if s.len() == 0 { s } else { insert_sorted(sorted_values(s.drop_last()), s.last()) }
}

pub open spec fn ascending(s: Seq<u64>) -> bool {
    forall|i: int, j: int| 0 <= i < j < s.len() ==> s[i] <= s[j]
}

proof fn lemma_insert_sorted_at(s: Seq<u64>, x: u64, p: int)
    requires
        0 <= p <= s.len(),
        forall|j: int| 0 <= j < p ==> !(x < #[trigger] s[j]),
        p == s.len() || x < s[p],
    ensures
        insert_sorted(s, x) == s.insert(p, x),
    decreases p,
{
    if s.len() == 0 {
        assert(s.insert(p, x) =~= seq![x]);
    } else if p == 0 {
        assert(s.insert(0, x) =~= seq![x] + s);
    } else {
        let t = s.drop_first();
        assert forall|j: int| 0 <= j < p - 1 implies !(x < #[trigger] t[j]) by {
            assert(t[j] == s[j + 1]);
        }
        lemma_insert_sorted_at(t, x, p - 1);
        assert(seq![s[0]] + t.insert(p - 1, x) =~= s.insert(p, x));
    }
}

proof fn lemma_insert_sorted(s: Seq<u64>, x: u64)
    requires
        ascending(s),
    ensures
        ascending(insert_sorted(s, x)),
        insert_sorted(s, x).to_multiset() == s.to_multiset().insert(x),
        insert_sorted(s, x).len() == s.len() + 1,
    decreases s.len(),
{
    broadcast use vstd::seq_lib::group_to_multiset_ensures;
    if s.len() == 0 {
        assert(seq![x] =~= s.push(x));
    } else if x < s[0] {
        let r = seq![x] + s;
        vstd::seq_lib::lemma_multiset_commutative(seq![x], s);
        assert(seq![x] =~= Seq::<u64>::empty().push(x));
        assert forall|i: int, j: int| 0 <= i < j < r.len() implies r[i] <= r[j] by {
            if i > 0 {
                assert(r[i] == s[i - 1] && r[j] == s[j - 1]);
            } else {
                assert(r[j] == s[j - 1]);
            }
        }
    } else {
        let t = s.drop_first();
        lemma_insert_sorted(t, x);
        let it = insert_sorted(t, x);
        let r = seq![s[0]] + it;
        vstd::seq_lib::lemma_multiset_commutative(seq![s[0]], it);
        vstd::seq_lib::lemma_multiset_commutative(seq![s[0]], t);
        assert(s =~= seq![s[0]] + t);
        assert forall|i: int, j: int| 0 <= i < j < r.len() implies r[i] <= r[j] by {
            if i > 0 {
                assert(r[i] == it[i - 1] && r[j] == it[j - 1]);
            } else {
                let y = it[j - 1];
                assert(r[j] == y);
                assert(it.to_multiset().count(y) > 0);
                if y != x {
                    assert(t.to_multiset().count(y) > 0);
                    let k = choose|k: int| 0 <= k < t.len() && t[k] == y;
                    assert(s[k + 1] == t[k]);
                }
            }
        }
    }
}

/// Law: the sorted values are in ascending order and are exactly the given values.
pub proof fn lemma_sorted_values(s: Seq<u64>)
    ensures
        ascending(sorted_values(s)),
        sorted_values(s).to_multiset() == s.to_multiset(),
        sorted_values(s).len() == s.len(),
    decreases s.len(),
{
    broadcast use vstd::seq_lib::group_to_multiset_ensures;
    if s.len() > 0 {
        lemma_sorted_values(s.drop_last());
        lemma_insert_sorted(sorted_values(s.drop_last()), s.last());
        assert(s =~= s.drop_last().push(s.last()));
    }
}

/// The values in ascending order.
pub fn sort_values(values: &Vec<u64>) -> (r: Vec<u64>)
    ensures
        r@ == sorted_values(values@),
{
    let mut r: Vec<u64> = Vec::new();
    let mut i: usize = 0;
    while i < values.len()
        invariant
            i <= values@.len(),
            r@ == sorted_values(values@.take(i as int)),
        decreases values@.len() - i,
    {
        let x = values[i];
        let mut p: usize = 0;
        while p < r.len() && !(x < r[p])
            invariant
                p <= r@.len(),
                forall|j: int| 0 <= j < p ==> !(x < #[trigger] r@[j]),
            decreases r@.len() - p,
        {
            p += 1;
        }
        proof {
            lemma_insert_sorted_at(r@, x, p as int);
            assert(values@.take(i + 1).drop_last() =~= values@.take(i as int));
        }
        r.insert(p, x);
        i += 1;
    }
    proof { assert(values@.take(i as int) =~= values@); }
    r
}

/// The summary of one metric.
#[derive(Debug)]
pub struct PerformanceMetric {
    pub name: String,
    pub samples: usize,
    pub p50_ms: u64,
    pub p95_ms: u64,
    pub max_ms: u64,
}

/// The nearest-rank percentile `rank` of ascending values, 0 when there are none.
pub open spec fn rank_of(s: Seq<u64>, rank: nat) -> u64 {
    if s.len() == 0 { 0 } else { s[((s.len() - 1) * rank / 100) as int] }
}

/// Summarises the samples of metric `name`: count, median, 95th percentile and maximum.
pub fn summarize(name: String, values: &Vec<u64>) -> (m: PerformanceMetric)
    requires
        values@.len() * 100 <= usize::MAX,
    ensures
        m.name == name,
        m.samples == values@.len(),
        m.p50_ms == rank_of(sorted_values(values@), 50),
        m.p95_ms == rank_of(sorted_values(values@), 95),
        m.max_ms == (if values@.len() == 0 { 0 } else { sorted_values(values@).last() }),
{
    let sorted = sort_values(values);
    proof { lemma_sorted_values(values@); }
    let n = sorted.len();
    if n > 0 {
        assert((n - 1) * 50 <= n * 100) by (nonlinear_arith) requires n > 0;
        assert((n - 1) * 95 <= n * 100) by (nonlinear_arith) requires n > 0;
        assert((n - 1) * 50 / 100 < n) by (nonlinear_arith) requires n > 0;
        assert((n - 1) * 95 / 100 < n) by (nonlinear_arith) requires n > 0;
    }
    let p50 = percentile(sorted.as_slice(), 50);
    let p95 = percentile(sorted.as_slice(), 95);
    let max = if n == 0 { 0 } else { sorted[n - 1] };
    PerformanceMetric { name, samples: n, p50_ms: p50, p95_ms: p95, max_ms: max }
}

/// The summaries of all metrics, ordered by name (compared by code point, as `str`
/// orders). Names are expected to be distinct, as keys of the sample table are.
pub fn summarize_all(entries: Vec<(String, Vec<u64>)>) -> (r: Vec<PerformanceMetric>)
    requires
        forall|i: int| 0 <= i < entries@.len() ==> (#[trigger] entries@[i]).1@.len() * 100 <= usize::MAX,
    ensures
        r@.len() == entries@.len(),
        ({
            let sorted = keyed_sort(entries@.map_values(|e: (String, Vec<u64>)| (e.0@, e)));
            forall|i: int| 0 <= i < r@.len() ==> {
                let e = #[trigger] sorted[i].1;
                &&& r@[i].name == e.0
                &&& r@[i].samples == e.1@.len()
                &&& r@[i].p50_ms == rank_of(sorted_values(e.1@), 50)
                &&& r@[i].p95_ms == rank_of(sorted_values(e.1@), 95)
                &&& r@[i].max_ms == (if e.1@.len() == 0 { 0 } else { sorted_values(e.1@).last() })
            }
        }),
{
    let ghost all = entries@.map_values(|e: (String, Vec<u64>)| (e.0@, e));
    let mut rest = entries;
    let mut keyed: Vec<(Vec<char>, (String, Vec<u64>))> = Vec::new();
    let ghost mut k: int = 0;
    let ghost orig = rest@;
    while rest.len() > 0
        invariant
            0 <= k <= orig.len(),
            rest@ == orig.skip(k),
            all == orig.map_values(|e: (String, Vec<u64>)| (e.0@, e)),
            keyed_view(keyed@) == all.take(k),
        decreases rest@.len(),
    {
        let ghost rest0 = rest@;
        let e = rest.remove(0);
        let key = chars_of(e.0.as_str());
        let ghost before = keyed@;
        keyed.push((key, e));
        proof {
            assert(rest0[0] == orig[k]);
            assert(rest@ =~= orig.skip(k + 1));
            assert(keyed_view(keyed@) =~= keyed_view(before).push((e.0@, e)));
            assert(all.take(k + 1) =~= all.take(k).push(all[k]));
            k = k + 1;
        }
    }
    proof { assert(all.take(k) =~= all); }
    let sorted = sort_keyed(keyed);
    let ghost sv = keyed_view(sorted@);
    proof {
        broadcast use vstd::seq_lib::group_to_multiset_ensures;
        crate::sorting::lemma_keyed_sort_multiset(all);
        assert forall|i: int| 0 <= i < sv.len() implies (#[trigger] sv[i]).1.1@.len() * 100 <= usize::MAX by {
            assert(keyed_sort(all).to_multiset().count(sv[i]) > 0);
            assert(all.contains(sv[i]));
            let m = choose|m: int| 0 <= m < all.len() && all[m] == sv[i];
            assert(all[m].1 == orig[m]);
        }
    }
    let mut out: Vec<PerformanceMetric> = Vec::new();
    let mut rest2 = sorted;
    let ghost mut j: int = 0;
    while rest2.len() > 0
        invariant
            0 <= j <= sv.len(),
            keyed_view(rest2@) == sv.skip(j),
            out@.len() == j,
            sv == keyed_sort(all),
            forall|i: int| 0 <= i < sv.len() ==> (#[trigger] sv[i]).1.1@.len() * 100 <= usize::MAX,
            forall|i: int| 0 <= i < j ==> {
                let e = #[trigger] sv[i].1;
                &&& out@[i].name == e.0
                &&& out@[i].samples == e.1@.len()
                &&& out@[i].p50_ms == rank_of(sorted_values(e.1@), 50)
                &&& out@[i].p95_ms == rank_of(sorted_values(e.1@), 95)
                &&& out@[i].max_ms == (if e.1@.len() == 0 { 0 } else { sorted_values(e.1@).last() })
            },
        decreases rest2@.len(),
    {
        let ghost rest0 = rest2@;
        let item = rest2.remove(0);
        proof {
            assert(keyed_view(rest0).len() == rest0.len());
            assert(keyed_view(rest0)[0] == sv.skip(j)[0]);
            assert(keyed_view(rest0)[0] == sv[j]);
            assert(keyed_view(rest2@) =~= sv.skip(j + 1)) by {
                assert forall|i: int| 0 <= i < rest2@.len() implies #[trigger] keyed_view(rest2@)[i] == sv.skip(j + 1)[i] by {
                    assert(rest2@[i] == rest0[i + 1]);
                    assert(keyed_view(rest0)[i + 1] == sv.skip(j)[i + 1]);
                }
            }
        }
        let (_, entry) = item;
        let (name, values) = entry;
        let m = summarize(name, &values);
        out.push(m);
        proof { j = j + 1; }
    }
    proof {
        lemma_keyed_sort_map(all, |e: (String, Vec<u64>)| e);
        crate::sorting::lemma_keyed_sort_multiset(all);
        assert(keyed_sort(all).len() == all.len());
    }
    out
}

} // verus!
