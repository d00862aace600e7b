//! What pruning the translation history leaves on screen: the translation subtitle
//! shows at most `MAX_TEXT_CHARS` characters, and pruning only ever removes text that
//! lies before the last `STABLE_TAIL_CHARS` characters of what is shown.
use vstd::prelude::*;
use crate::subtitles::{
    group_stable, group_text, group_texts, groups_cut, join_lines, keep_last, law_pruning_keeps_group_tail,
    lemma_groups_cut, lemma_stable_within_text,
    nonempty_groups, nonempty_texts, pruned_group, pruned_groups, pruned_replace, referenced, tail,
    translation_display, MAX_TEXT_CHARS, STABLE_TAIL_CHARS, bounded_push, drop_settled_empty, tail_cut, stable_chars,
    settled_empty, MAX_COMMITTED,
};

verus! {

/// Two texts agree on what a clipped display can show: they are equal, or both are at
/// least `STABLE_TAIL_CHARS` characters long and end in the same `STABLE_TAIL_CHARS`
/// characters.
pub open spec fn same_tail(a: Seq<char>, b: Seq<char>) -> bool {
    a == b || (a.len() >= STABLE_TAIL_CHARS && b.len() >= STABLE_TAIL_CHARS
        && a.skip(a.len() - STABLE_TAIL_CHARS) == b.skip(b.len() - STABLE_TAIL_CHARS))
}

proof fn lemma_same_tail_append(a: Seq<char>, b: Seq<char>, y: Seq<char>)
    requires
        same_tail(a, b),
    ensures
        same_tail(a + y, b + y),
{
    let s = STABLE_TAIL_CHARS as int;
    if a != b {
        let x = a + y;
        let z = b + y;
        assert(x.skip(x.len() - s) =~= z.skip(z.len() - s)) by {
            assert forall|i: int| 0 <= i < s implies #[trigger] x.skip(x.len() - s)[i] == z.skip(z.len() - s)[i] by {
                let j = x.len() - s + i;
                let k = z.len() - s + i;
                if j < a.len() {
                    assert(k < b.len());
                    assert(a.skip(a.len() - s)[j - (a.len() - s)] == b.skip(b.len() - s)[k - (b.len() - s)]);
                } else {
                    assert(x[j] == y[j - a.len()]);
                    assert(z[k] == y[k - b.len()]);
                }
            }
        }
    }
}

proof fn lemma_same_tail_prepend(a: Seq<char>, b: Seq<char>, p: Seq<char>, q: Seq<char>)
    requires
        a.len() >= STABLE_TAIL_CHARS,
        b.len() >= STABLE_TAIL_CHARS,
        a.skip(a.len() - STABLE_TAIL_CHARS) == b.skip(b.len() - STABLE_TAIL_CHARS),
    ensures
        same_tail(p + a, q + b),
{
    let s = STABLE_TAIL_CHARS as int;
    let x = p + a;
    let z = q + b;
    assert(x.skip(x.len() - s) =~= a.skip(a.len() - s));
    assert(z.skip(z.len() - s) =~= b.skip(b.len() - s));
}

/// Agreeing texts look the same once clipped.
pub proof fn lemma_same_tail_clips(a: Seq<char>, b: Seq<char>)
    requires
        same_tail(a, b),
    ensures
        tail(a, MAX_TEXT_CHARS as nat) == tail(b, MAX_TEXT_CHARS as nat),
{
    if a != b {
        let m = MAX_TEXT_CHARS as int;
        let s = STABLE_TAIL_CHARS as int;
        assert(a.skip(a.len() - m) =~= a.skip(a.len() - s).skip(1));
        assert(b.skip(b.len() - m) =~= b.skip(b.len() - s).skip(1));
    }
}

pub open spec fn pointwise_same_tail(xs: Seq<Seq<char>>, ys: Seq<Seq<char>>) -> bool {
    &&& xs.len() == ys.len()
    &&& forall|i: int| 0 <= i < xs.len() ==> same_tail(#[trigger] xs[i], ys[i])
}

/// Lines that agree one by one agree once joined.
pub proof fn lemma_join_same_tail(xs: Seq<Seq<char>>, ys: Seq<Seq<char>>, sep: Seq<char>)
    requires
        pointwise_same_tail(xs, ys),
    ensures
        same_tail(join_lines(xs, sep), join_lines(ys, sep)),
    decreases xs.len(),
{
    if xs.len() == 0 {
    } else if xs.len() == 1 {
        assert(same_tail(xs[0], ys[0]));
    } else {
        let xi = xs.drop_last();
        let yi = ys.drop_last();
        assert forall|i: int| 0 <= i < xi.len() implies same_tail(#[trigger] xi[i], yi[i]) by {
            assert(xi[i] == xs[i] && yi[i] == ys[i]);
        }
        lemma_join_same_tail(xi, yi, sep);
        let jx = join_lines(xi, sep) + sep;
        let jy = join_lines(yi, sep) + sep;
        lemma_same_tail_append(join_lines(xi, sep), join_lines(yi, sep), sep);
        assert(same_tail(xs.last(), ys.last())) by {
            assert(xs.last() == xs[xs.len() - 1]);
        }
        if xs.last() == ys.last() {
            lemma_same_tail_append(jx, jy, xs.last());
        } else {
            lemma_same_tail_prepend(xs.last(), ys.last(), jx, jy);
        }
    }
}

proof fn lemma_group_same_tail(g: Seq<u64>, values: Map<u64, String>, completed: Set<u64>)
    ensures
        same_tail(group_text(g, values), group_text(pruned_group(g, values, completed), values)),
{
    law_pruning_keeps_group_tail(g, values, completed);
    let full = group_text(g, values);
    let kept = group_text(pruned_group(g, values, completed), values);
    let s = STABLE_TAIL_CHARS as int;
    if kept.len() == full.len() {
        assert(kept =~= full);
    } else {
        assert(full.skip(full.len() - s) =~= kept.skip(kept.len() - s));
    }
}

proof fn lemma_group_text_restrict(g: Seq<u64>, values: Map<u64, String>, keep: Set<u64>)
    requires
        forall|i: int| 0 <= i < g.len() ==> keep.contains(#[trigger] g[i]),
    ensures
        group_text(g, values.restrict(keep)) == group_text(g, values),
    decreases g.len(),
{
    if g.len() > 0 {
        let d = g.drop_last();
        assert forall|i: int| 0 <= i < d.len() implies keep.contains(#[trigger] d[i]) by {
            assert(d[i] == g[i]);
        }
        lemma_group_text_restrict(d, values, keep);
        assert(keep.contains(g.last())) by {
            assert(g.last() == g[g.len() - 1]);
        }
    }
}

/// Keeping the non-empty texts keeps agreeing lists agreeing.
proof fn lemma_nonempty_same_tail(xs: Seq<Seq<char>>, ys: Seq<Seq<char>>)
    requires
        pointwise_same_tail(xs, ys),
    ensures
        pointwise_same_tail(nonempty_texts(xs), nonempty_texts(ys)),
    decreases xs.len(),
{
    if xs.len() > 0 {
        let xi = xs.drop_last();
        let yi = ys.drop_last();
        assert forall|i: int| 0 <= i < xi.len() implies same_tail(#[trigger] xi[i], yi[i]) by {
            assert(xi[i] == xs[i] && yi[i] == ys[i]);
        }
        lemma_nonempty_same_tail(xi, yi);
        assert(same_tail(xs.last(), ys.last())) by {
            assert(xs.last() == xs[xs.len() - 1]);
        }
        let nx = nonempty_texts(xi);
        let ny = nonempty_texts(yi);
        if xs.last().len() > 0 {
            assert(ys.last().len() > 0);
            assert forall|i: int| 0 <= i < nx.len() + 1 implies same_tail(#[trigger] nx.push(xs.last())[i], ny.push(ys.last())[i]) by {
                if i < nx.len() {
                    assert(nx.push(xs.last())[i] == nx[i]);
                    assert(ny.push(ys.last())[i] == ny[i]);
                }
            }
        } else {
            assert(ys.last().len() == 0);
        }
    }
}

/// The texts of groups pruned one by one agree with the texts of the groups.
proof fn lemma_pruned_texts_same_tail(gs: Seq<Seq<u64>>, values: Map<u64, String>, completed: Set<u64>, keep: Set<u64>)
    requires
        forall|j: int, i: int| 0 <= j < gs.len() && 0 <= i < pruned_group(gs[j], values, completed).len()
            ==> keep.contains(#[trigger] pruned_group(gs[j], values, completed)[i]),
    ensures
        pointwise_same_tail(group_texts(gs, values), group_texts(pruned_groups(gs, values, completed), values.restrict(keep))),
{
    let xs = group_texts(gs, values);
    let ys = group_texts(pruned_groups(gs, values, completed), values.restrict(keep));
    assert forall|j: int| 0 <= j < xs.len() implies same_tail(#[trigger] xs[j], ys[j]) by {
        let pg = pruned_group(gs[j], values, completed);
        assert(forall|i: int| 0 <= i < pg.len() ==> keep.contains(#[trigger] pg[i]));
        lemma_group_text_restrict(pg, values, keep);
        lemma_group_same_tail(gs[j], values, completed);
    }
}

/// The clause numbers a pruned document still refers to.
pub open spec fn kept_refs(
    current: Seq<u64>,
    committed: Seq<Seq<u64>>,
    replace: Seq<Seq<u64>>,
    values: Map<u64, String>,
    completed: Set<u64>,
) -> Set<u64> {
    referenced(
        pruned_group(current, values, completed),
        pruned_groups(committed, values, completed),
        pruned_replace(replace, values, completed),
    )
}

proof fn lemma_skip_same_tail(xs: Seq<Seq<char>>, ys: Seq<Seq<char>>, n: int)
    requires
        pointwise_same_tail(xs, ys),
        0 <= n <= xs.len(),
    ensures
        pointwise_same_tail(xs.skip(n), ys.skip(n)),
{
    assert forall|i: int| 0 <= i < xs.skip(n).len() implies same_tail(#[trigger] xs.skip(n)[i], ys.skip(n)[i]) by {
        assert(xs.skip(n)[i] == xs[i + n]);
        assert(ys.skip(n)[i] == ys[i + n]);
    }
}

proof fn lemma_scroll_display(
    current: Seq<u64>,
    committed: Seq<Seq<u64>>,
    replace: Seq<Seq<u64>>,
    values: Map<u64, String>,
    completed: Set<u64>,
    line_count: nat,
)
    ensures
        translation_display(
            pruned_groups(committed, values, completed),
            pruned_replace(replace, values, completed),
            pruned_group(current, values, completed),
            values.restrict(kept_refs(current, committed, replace, values, completed)),
            false,
            line_count,
        ) == translation_display(committed, replace, current, values, false, line_count),
{
    let keep = kept_refs(current, committed, replace, values, completed);
    let pc = pruned_groups(committed, values, completed);
    let pcur = pruned_group(current, values, completed);
    let pr = pruned_replace(replace, values, completed);
    let gs = committed.push(current);
    assert(pruned_groups(gs, values, completed) =~= pc.push(pcur));
    assert forall|j: int, i: int| 0 <= j < gs.len() && 0 <= i < pruned_group(gs[j], values, completed).len()
        implies keep.contains(#[trigger] pruned_group(gs[j], values, completed)[i]) by {
        let k = pruned_group(gs[j], values, completed)[i];
        if j < committed.len() {
            assert(gs[j] == committed[j]);
            assert(pc[j] == pruned_group(committed[j], values, completed));
            assert(pc[j].contains(k));
        } else {
            assert(gs[j] == current);
            assert(pcur.contains(k));
        }
    }
    lemma_pruned_texts_same_tail(gs, values, completed, keep);
    let xs = nonempty_texts(group_texts(gs, values));
    let ys = nonempty_texts(group_texts(pc.push(pcur), values.restrict(keep)));
    lemma_nonempty_same_tail(group_texts(gs, values), group_texts(pc.push(pcur), values.restrict(keep)));
    let k = if line_count >= 1 { line_count } else { 1 };
    let sx = if xs.len() > k { xs.skip(xs.len() - k) } else { xs };
    let sy = if ys.len() > k { ys.skip(ys.len() - k) } else { ys };
    if xs.len() > k {
        lemma_skip_same_tail(xs, ys, xs.len() - k);
    }
    lemma_join_same_tail(sx, sy, seq!['\n']);
    lemma_same_tail_clips(join_lines(sx, seq!['\n']), join_lines(sy, seq!['\n']));
}

proof fn lemma_nonempty_concat(a: Seq<Seq<char>>, b: Seq<Seq<char>>)
    ensures
        nonempty_texts(a + b) == nonempty_texts(a) + nonempty_texts(b),
    decreases b.len(),
{
    if b.len() == 0 {
        assert(a + b =~= a);
        assert(nonempty_texts(a) + nonempty_texts(b) =~= nonempty_texts(a));
    } else {
        lemma_nonempty_concat(a, b.drop_last());
        assert((a + b).drop_last() =~= a + b.drop_last());
        assert((a + b).last() == b.last());
        if b.last().len() > 0 {
            assert(nonempty_texts(a) + nonempty_texts(b.drop_last()).push(b.last()) =~= (nonempty_texts(a)
                + nonempty_texts(b.drop_last())).push(b.last()));
        }
    }
}

proof fn lemma_texts_of_nonempty_groups(q: Seq<Seq<u64>>, values: Map<u64, String>)
    ensures
        nonempty_texts(group_texts(nonempty_groups(q), values)) == nonempty_texts(group_texts(q, values)),
    decreases q.len(),
{
    if q.len() > 0 {
        lemma_texts_of_nonempty_groups(q.drop_last(), values);
        let n = nonempty_groups(q.drop_last());
        assert(group_texts(q, values).drop_last() =~= group_texts(q.drop_last(), values));
        assert(group_texts(q, values).last() == group_text(q.last(), values));
        if q.last().len() == 0 {
            assert(group_text(q.last(), values) =~= Seq::<char>::empty());
        } else {
            assert(group_texts(n.push(q.last()), values).drop_last() =~= group_texts(n, values));
            assert(group_texts(n.push(q.last()), values).last() == group_text(q.last(), values));
        }
    }
}

proof fn lemma_texts_restrict(gs: Seq<Seq<u64>>, values: Map<u64, String>, keep: Set<u64>)
    requires
        forall|j: int, i: int| 0 <= j < gs.len() && 0 <= i < gs[j].len() ==> keep.contains(#[trigger] gs[j][i]),
    ensures
        group_texts(gs, values.restrict(keep)) == group_texts(gs, values),
{
    assert forall|j: int| 0 <= j < gs.len() implies #[trigger] group_texts(gs, values.restrict(keep))[j] == group_texts(gs, values)[j] by {
        assert(forall|i: int| 0 <= i < gs[j].len() ==> keep.contains(#[trigger] gs[j][i]));
        lemma_group_text_restrict(gs[j], values, keep);
    }
    assert(group_texts(gs, values.restrict(keep)) =~= group_texts(gs, values));
}

pub open spec fn groups_stable(gs: Seq<Seq<u64>>, values: Map<u64, String>, completed: Set<u64>) -> nat
    decreases gs.len(),
{
    if gs.len() == 0 { 0 } else { groups_stable(gs.drop_last(), values, completed) + group_stable(gs.last(), values, completed) }
}

pub open spec fn total_len(ts: Seq<Seq<char>>) -> nat
    decreases ts.len(),
{
    if ts.len() == 0 { 0 } else { total_len(ts.drop_last()) + ts.last().len() }
}

proof fn lemma_groups_cut_reaches(gs: Seq<Seq<u64>>, values: Map<u64, String>, completed: Set<u64>, i: int, acc: nat)
    requires
        0 <= i <= gs.len(),
    ensures
        ({
            let k = groups_cut(gs, values, completed, i, acc);
            k > 0 ==> acc + groups_stable(gs.subrange(k, i), values, completed) >= STABLE_TAIL_CHARS
        }),
    decreases i,
{
    if i > 0 {
        let acc2 = acc + group_stable(gs[i - 1], values, completed);
        lemma_groups_cut(gs, values, completed, i - 1, acc2);
        if acc2 >= STABLE_TAIL_CHARS {
            let one = gs.subrange(i - 1, i);
            assert(one.drop_last() =~= Seq::<Seq<u64>>::empty());
            assert(one.last() == gs[i - 1]);
        } else {
            lemma_groups_cut_reaches(gs, values, completed, i - 1, acc2);
            let k = groups_cut(gs, values, completed, i - 1, acc2);
            let s = gs.subrange(k, i);
            assert(s.drop_last() =~= gs.subrange(k, i - 1));
            assert(s.last() == gs[i - 1]);
        }
    }
}

proof fn lemma_stable_within_texts(gs: Seq<Seq<u64>>, values: Map<u64, String>, completed: Set<u64>)
    ensures
        groups_stable(gs, values, completed) <= total_len(group_texts(gs, values)),
    decreases gs.len(),
{
    if gs.len() > 0 {
        lemma_stable_within_texts(gs.drop_last(), values, completed);
        lemma_stable_within_text(gs.last(), values, completed);
        assert(group_texts(gs, values).drop_last() =~= group_texts(gs.drop_last(), values));
    }
}

proof fn lemma_total_len_nonempty(ts: Seq<Seq<char>>)
    ensures
        total_len(nonempty_texts(ts)) == total_len(ts),
    decreases ts.len(),
{
    if ts.len() > 0 {
        lemma_total_len_nonempty(ts.drop_last());
        if ts.last().len() > 0 {
            assert(nonempty_texts(ts.drop_last()).push(ts.last()).drop_last() =~= nonempty_texts(ts.drop_last()));
        }
    }
}

proof fn lemma_join_len(ts: Seq<Seq<char>>, sep: Seq<char>)
    ensures
        join_lines(ts, sep).len() >= total_len(ts),
    decreases ts.len(),
{
    if ts.len() == 1 {
        assert(ts.drop_last().len() == 0);
    } else if ts.len() > 1 {
        lemma_join_len(ts.drop_last(), sep);
    }
}

proof fn lemma_join_concat(a: Seq<Seq<char>>, b: Seq<Seq<char>>, sep: Seq<char>)
    requires
        a.len() > 0,
        b.len() > 0,
    ensures
        join_lines(a + b, sep) == join_lines(a, sep) + sep + join_lines(b, sep),
    decreases b.len(),
{
    if b.len() == 1 {
        assert((a + b).drop_last() =~= a);
        assert((a + b).last() == b[0]);
    } else {
        lemma_join_concat(a, b.drop_last(), sep);
        assert((a + b).drop_last() =~= a + b.drop_last());
        assert((a + b).last() == b.last());
        assert(join_lines(a, sep) + sep + join_lines(b.drop_last(), sep) + sep + b.last() =~= join_lines(a, sep) + sep
            + (join_lines(b.drop_last(), sep) + sep + b.last()));
    }
}

proof fn lemma_concat_same_tail(a: Seq<Seq<char>>, b: Seq<Seq<char>>, c: Seq<Seq<char>>, d: Seq<Seq<char>>)
    requires
        pointwise_same_tail(a, c),
        pointwise_same_tail(b, d),
    ensures
        pointwise_same_tail(a + b, c + d),
{
    assert forall|i: int| 0 <= i < (a + b).len() implies same_tail(#[trigger] (a + b)[i], (c + d)[i]) by {
        if i < a.len() {
            assert((a + b)[i] == a[i] && (c + d)[i] == c[i]);
        } else {
            assert((a + b)[i] == b[i - a.len()] && (c + d)[i] == d[i - a.len()]);
        }
    }
}

proof fn lemma_total_len_concat(a: Seq<Seq<char>>, b: Seq<Seq<char>>)
    ensures
        total_len(a + b) == total_len(a) + total_len(b),
    decreases b.len(),
{
    if b.len() == 0 {
        assert(a + b =~= a);
    } else {
        lemma_total_len_concat(a, b.drop_last());
        assert((a + b).drop_last() =~= a + b.drop_last());
        assert((a + b).last() == b.last());
    }
}

proof fn lemma_replace_display(
    current: Seq<u64>,
    committed: Seq<Seq<u64>>,
    replace: Seq<Seq<u64>>,
    values: Map<u64, String>,
    completed: Set<u64>,
    line_count: nat,
)
    ensures
        translation_display(
            pruned_groups(committed, values, completed),
            pruned_replace(replace, values, completed),
            pruned_group(current, values, completed),
            values.restrict(kept_refs(current, committed, replace, values, completed)),
            true,
            line_count,
        ) == translation_display(committed, replace, current, values, true, line_count),
{
    let sep = seq![' '];
    let keep = kept_refs(current, committed, replace, values, completed);
    let vr = values.restrict(keep);
    let pc = pruned_groups(committed, values, completed);
    let pg = pruned_groups(replace, values, completed);
    let p = nonempty_groups(pg);
    let c = groups_cut(p, values, completed, p.len() as int, 0);
    let pr = pruned_replace(replace, values, completed);
    let pcur = pruned_group(current, values, completed);
    lemma_groups_cut(p, values, completed, p.len() as int, 0);
    assert(pr == p.skip(c));

    // The new lines, read with the unrestricted translations.
    let news = pr.push(pcur);
    assert forall|j: int, i: int| 0 <= j < news.len() && 0 <= i < news[j].len() implies keep.contains(#[trigger] news[j][i]) by {
        let k = news[j][i];
        if j < pr.len() {
            assert(news[j] == pr[j]);
            assert(pr[j].contains(k));
        } else {
            assert(news[j] == pcur);
            assert(pcur.contains(k));
        }
    }
    lemma_texts_restrict(news, values, keep);
    assert(group_texts(news, values) =~= group_texts(pr, values) + seq![group_text(pcur, values)]);
    lemma_nonempty_concat(group_texts(pr, values), seq![group_text(pcur, values)]);
    let k_list = nonempty_texts(group_texts(pr, values));
    let cn = nonempty_texts(seq![group_text(pcur, values)]);
    let new_list = nonempty_texts(group_texts(news, vr));
    assert(new_list == k_list + cn);

    // The old lines.
    let olds = replace.push(current);
    assert(group_texts(olds, values) =~= group_texts(replace, values) + seq![group_text(current, values)]);
    lemma_nonempty_concat(group_texts(replace, values), seq![group_text(current, values)]);
    let o = nonempty_texts(group_texts(replace, values));
    let cc = nonempty_texts(seq![group_text(current, values)]);
    let old_list = nonempty_texts(group_texts(olds, values));
    assert(old_list == o + cc);

    // The replacement groups agree with their pruned forms.
    let all = Set::<u64>::full();
    lemma_pruned_texts_same_tail(replace, values, completed, all);
    assert(values.restrict(all) =~= values);
    lemma_nonempty_same_tail(group_texts(replace, values), group_texts(pg, values));
    lemma_texts_of_nonempty_groups(pg, values);
    assert(p =~= p.take(c) + p.skip(c));
    assert(group_texts(p, values) =~= group_texts(p.take(c), values) + group_texts(p.skip(c), values));
    lemma_nonempty_concat(group_texts(p.take(c), values), group_texts(p.skip(c), values));
    let d = nonempty_texts(group_texts(p.take(c), values));
    assert(pointwise_same_tail(o, d + k_list));

    // The current group agrees with its pruned form.
    lemma_group_same_tail(current, values, completed);
    lemma_nonempty_same_tail(seq![group_text(current, values)], seq![group_text(pcur, values)]);

    // The kept part.
    let n = d.len() as int;
    let o2 = o.skip(n);
    assert forall|i: int| 0 <= i < o2.len() implies same_tail(#[trigger] o2[i], k_list[i]) by {
        assert(o2[i] == o[i + n]);
        assert((d + k_list)[i + n] == k_list[i]);
    }
    let r = o2 + cc;
    lemma_concat_same_tail(o2, cc, k_list, cn);
    lemma_join_same_tail(r, k_list + cn, sep);
    if n == 0 {
        assert(o2 =~= o);
        lemma_same_tail_clips(join_lines(old_list, sep), join_lines(new_list, sep));
    } else {
        assert(c > 0) by {
            if c == 0 {
                assert(p.take(c).len() == 0);
                assert(group_texts(p.take(c), values).len() == 0);
            }
        }
        lemma_groups_cut_reaches(p, values, completed, p.len() as int, 0);
        assert(p.subrange(c, p.len() as int) =~= pr);
        lemma_stable_within_texts(pr, values, completed);
        lemma_total_len_nonempty(group_texts(pr, values));
        lemma_total_len_concat(k_list, cn);
        lemma_join_len(k_list + cn, sep);
        let jn = join_lines(k_list + cn, sep);
        assert(jn.len() >= STABLE_TAIL_CHARS);
        assert(k_list.len() > 0);
        let o1 = o.take(n);
        assert(o =~= o1 + o2);
        assert(old_list =~= o1 + r);
        lemma_join_concat(o1, r, sep);
        let jr = join_lines(r, sep);
        let pre = join_lines(o1, sep) + sep;
        assert(join_lines(old_list, sep) =~= pre + jr);
        lemma_same_tail_prepend(jr, jn, pre, Seq::<char>::empty());
        assert(Seq::<char>::empty() + jn =~= jn);
        lemma_same_tail_clips(join_lines(old_list, sep), join_lines(new_list, sep));
    }
}

/// Law: pruning the translation history never changes what the translation subtitle
/// shows, in either display mode and for any number of lines.
pub proof fn law_pruning_keeps_display(
    current: Seq<u64>,
    committed: Seq<Seq<u64>>,
    replace: Seq<Seq<u64>>,
    values: Map<u64, String>,
    completed: Set<u64>,
    replace_mode: bool,
    line_count: nat,
)
    ensures
        translation_display(
            pruned_groups(committed, values, completed),
            pruned_replace(replace, values, completed),
            pruned_group(current, values, completed),
            values.restrict(kept_refs(current, committed, replace, values, completed)),
            replace_mode,
            line_count,
        ) == translation_display(committed, replace, current, values, replace_mode, line_count),
{
    if replace_mode {
        lemma_replace_display(current, committed, replace, values, completed, line_count);
    } else {
        lemma_scroll_display(current, committed, replace, values, completed, line_count);
    }
}


/// The translation history of a document as the pruning passes see it.
pub struct HistoryView {
    pub current: Seq<u64>,
    pub committed: Seq<Seq<u64>>,
    pub replace: Seq<Seq<u64>>,
    pub values: Map<u64, String>,
    pub completed: Set<u64>,
}

/// A pruning pass, as `TranslationDocument::finish` and `commit` end with it.
pub open spec fn pruned_history(h: HistoryView) -> HistoryView {
    let keep = kept_refs(h.current, h.committed, h.replace, h.values, h.completed);
    HistoryView {
        current: pruned_group(h.current, h.values, h.completed),
        committed: pruned_groups(h.committed, h.values, h.completed),
        replace: pruned_replace(h.replace, h.values, h.completed),
        values: h.values.restrict(keep),
        completed: h.completed.intersect(keep),
    }
}

/// One round of a subtitle session on a history with no group in progress, each step
/// as the document's methods state it: clause `s` is dispatched, its translation
/// `value` arrives and is finished, and the group is committed, continuing the
/// replacement line in replace mode.
pub open spec fn history_round(h: HistoryView, s: u64, value: String, replace_mode: bool) -> HistoryView {
    let started = HistoryView { current: seq![s], values: h.values.insert(s, value), ..h };
    let finished = pruned_history(HistoryView { completed: started.completed.insert(s), ..started });
    let rg = if replace_mode { finished.replace.push(finished.current) } else { finished.replace };
    pruned_history(HistoryView {
        current: Seq::empty(),
        committed: bounded_push(finished.committed, finished.current),
        replace: rg,
        ..finished
    })
}

/// Translations at least this long let twelve of them reach `STABLE_TAIL_CHARS`.
pub open spec fn long_translation() -> nat {
    151
}

/// A committed line of one finished clause with a long translation.
pub open spec fn settled_line(h: HistoryView, g: Seq<u64>) -> bool {
    &&& g.len() == 1
    &&& h.completed.contains(g[0])
    &&& h.values.contains_key(g[0])
    &&& h.values[g[0]]@.len() >= long_translation()
}

/// A history between rounds: nothing in progress, at most `MAX_COMMITTED` committed
/// lines of one finished clause each, and the replacement groups the last committed
/// lines (none in scroll mode).
pub open spec fn settled_history(h: HistoryView, replace_mode: bool) -> bool {
    &&& h.current.len() == 0
    &&& h.committed.len() <= MAX_COMMITTED
    &&& forall|i: int| 0 <= i < h.committed.len() ==> settled_line(h, #[trigger] h.committed[i])
    &&& if replace_mode {
        h.replace.len() <= h.committed.len() && h.replace == h.committed.skip(h.committed.len() - h.replace.len())
    } else {
        h.replace.len() == 0
    }
    &&& h.values.dom() == referenced(h.current, h.committed, h.replace)
    &&& h.completed.subset_of(h.values.dom())
}

proof fn lemma_singleton_kept(k: u64, values: Map<u64, String>, completed: Set<u64>)
    requires
        completed.contains(k),
        values.contains_key(k),
        values[k]@.len() >= 1,
    ensures
        pruned_group(seq![k], values, completed) == seq![k],
{
    let g = seq![k];
    assert(!settled_empty(values, completed, g.last()));
    assert(g.drop_last() =~= Seq::<u64>::empty());
    assert(drop_settled_empty(g.drop_last(), values, completed) =~= Seq::<u64>::empty());
    let f = drop_settled_empty(g, values, completed);
    assert(f =~= g);
    assert(tail_cut(f, values, completed, 0, stable_chars(values, completed, k)) == 0);
    assert(tail_cut(f, values, completed, 1, 0) == 0);
    assert(f.skip(0) =~= f);
}

/// Lines of one kept clause each survive pruning unchanged.
proof fn lemma_settled_lines_kept(gs: Seq<Seq<u64>>, values: Map<u64, String>, completed: Set<u64>)
    requires
        forall|i: int| 0 <= i < gs.len() ==> (#[trigger] gs[i]).len() == 1 && completed.contains(gs[i][0])
            && values.contains_key(gs[i][0]) && values[gs[i][0]]@.len() >= 1,
    ensures
        pruned_groups(gs, values, completed) == gs,
        nonempty_groups(gs) == gs,
    decreases gs.len(),
{
    assert forall|i: int| 0 <= i < gs.len() implies #[trigger] pruned_groups(gs, values, completed)[i] == gs[i] by {
        assert(gs[i] =~= seq![gs[i][0]]);
        lemma_singleton_kept(gs[i][0], values, completed);
    }
    assert(pruned_groups(gs, values, completed) =~= gs);
    if gs.len() > 0 {
        let init = gs.drop_last();
        assert forall|i: int| 0 <= i < init.len() implies (#[trigger] init[i]).len() == 1 && completed.contains(init[i][0])
            && values.contains_key(init[i][0]) && values[init[i][0]]@.len() >= 1 by {
            assert(init[i] == gs[i]);
        }
        lemma_settled_lines_kept(init, values, completed);
        assert(gs.last() == gs[gs.len() - 1]);
        assert(init.push(gs.last()) =~= gs);
    }
}

/// Scanning back over lines of at least `long_translation()` stable characters each,
/// the cut keeps at most `MAX_COMMITTED` lines.
proof fn lemma_long_lines_cut(gs: Seq<Seq<u64>>, values: Map<u64, String>, completed: Set<u64>, i: int, acc: nat)
    requires
        0 <= i <= gs.len(),
        acc < STABLE_TAIL_CHARS,
        acc >= long_translation() * (gs.len() - i),
        forall|j: int| 0 <= j < gs.len() ==> group_stable(#[trigger] gs[j], values, completed) >= long_translation(),
    ensures
        0 <= groups_cut(gs, values, completed, i, acc) <= i,
        groups_cut(gs, values, completed, i, acc) >= gs.len() - MAX_COMMITTED,
    decreases i,
{
    if i > 0 {
        let acc2 = acc + group_stable(gs[i - 1], values, completed);
        if acc2 < STABLE_TAIL_CHARS {
            lemma_long_lines_cut(gs, values, completed, i - 1, acc2);
        }
    }
}

proof fn lemma_line_stable(k: u64, values: Map<u64, String>, completed: Set<u64>)
    requires
        completed.contains(k),
        values.contains_key(k),
    ensures
        group_stable(seq![k], values, completed) == values[k]@.len(),
{
    let g = seq![k];
    assert(g.drop_last() =~= Seq::<u64>::empty());
    assert(group_stable(g.drop_last(), values, completed) == 0);
    assert(g.last() == k);
    assert(stable_chars(values, completed, k) == values[k]@.len());
}

proof fn lemma_referenced_lines(current: Seq<u64>, committed: Seq<Seq<u64>>, replace: Seq<Seq<u64>>, k: u64)
    requires
        current.len() == 0,
        replace.len() <= committed.len(),
        replace == committed.skip(committed.len() - replace.len()),
    ensures
        referenced(current, committed, replace).contains(k) <==> exists|i: int| 0 <= i < committed.len() && #[trigger] committed[i].contains(k),
{
    if referenced(current, committed, replace).contains(k) {
        if exists|i: int| 0 <= i < replace.len() && #[trigger] replace[i].contains(k) {
            let i = choose|i: int| 0 <= i < replace.len() && #[trigger] replace[i].contains(k);
            assert(committed[committed.len() - replace.len() + i] == replace[i]);
        }
    }
}

/// Law: a round on a settled history, with a new clause number and a translation of
/// at least `long_translation()` characters, leaves a settled history, which keeps at
/// most `MAX_COMMITTED` translations, all of them from before the round or the new one.
#[verifier::spinoff_prover]
#[verifier::rlimit(60)]
pub proof fn law_settled_history_keeps_twelve_values(h: HistoryView, s: u64, value: String, replace_mode: bool)
    requires
        settled_history(h, replace_mode),
        !h.values.contains_key(s),
        value@.len() >= long_translation(),
    ensures
        settled_history(history_round(h, s, value, replace_mode), replace_mode),
        history_round(h, s, value, replace_mode).values.dom().len() <= MAX_COMMITTED,
        forall|k: u64| #[trigger] history_round(h, s, value, replace_mode).values.contains_key(k) ==> h.values.contains_key(k)
            || k == s,
{
    let v0 = h.values.insert(s, value);
    let c0 = h.completed.insert(s);
    let line = seq![s];
    // The finishing pass.
    lemma_singleton_kept(s, v0, c0);
    assert forall|i: int| 0 <= i < h.committed.len() implies (#[trigger] h.committed[i]).len() == 1
        && c0.contains(h.committed[i][0]) && v0.contains_key(h.committed[i][0]) && v0[h.committed[i][0]]@.len() >= 1 by {
        assert(settled_line(h, h.committed[i]));
        let k = h.committed[i][0];
        assert(h.values.contains_key(k));
        assert(k != s);
    }
    lemma_settled_lines_kept(h.committed, v0, c0);
    let r1 = pruned_replace(h.replace, v0, c0);
    let cut1 = groups_cut(h.replace, v0, c0, h.replace.len() as int, 0);
    if replace_mode {
        assert forall|i: int| 0 <= i < h.replace.len() implies (#[trigger] h.replace[i]).len() == 1
            && c0.contains(h.replace[i][0]) && v0.contains_key(h.replace[i][0]) && v0[h.replace[i][0]]@.len() >= 1 by {
            assert(h.replace[i] == h.committed[h.committed.len() - h.replace.len() + i]);
            assert(settled_line(h, h.committed[h.committed.len() - h.replace.len() + i]));
        }
        lemma_settled_lines_kept(h.replace, v0, c0);
        lemma_groups_cut(h.replace, v0, c0, h.replace.len() as int, 0);
        assert(r1 == h.replace.skip(cut1));
    } else {
        assert(pruned_groups(h.replace, v0, c0) =~= h.replace);
        assert(nonempty_groups(h.replace) =~= h.replace);
        assert(r1 =~= h.replace);
    }
    let f = pruned_history(HistoryView { current: line, committed: h.committed, replace: h.replace, values: v0, completed: c0 });
    assert(f.current == line);
    assert(f.committed == h.committed);
    assert(f.replace == r1);
    let keep1 = referenced(line, h.committed, r1);
    assert(f.values == v0.restrict(keep1));
    // The committing pass.
    let cm = bounded_push(h.committed, line);
    let x = h.committed.push(line);
    let rg = if replace_mode { r1.push(line) } else { r1 };
    assert(cm == x.skip(x.len() - cm.len()) && cm.len() <= MAX_COMMITTED) by {
        if x.len() > MAX_COMMITTED {
            assert(x.drop_first() =~= x.skip(1));
        } else {
            assert(x.skip(0) =~= x);
        }
    }
    // Every clause of the committed lines is kept by the finishing pass.
    assert forall|i: int| 0 <= i < cm.len() implies (#[trigger] cm[i]).len() == 1 && f.completed.contains(cm[i][0])
        && f.values.contains_key(cm[i][0]) && f.values[cm[i][0]]@.len() >= long_translation()
        && f.values[cm[i][0]] == v0[cm[i][0]] by {
        let j = x.len() - cm.len() + i;
        assert(cm[i] == x[j]);
        if j < h.committed.len() {
            assert(x[j] == h.committed[j]);
            assert(settled_line(h, h.committed[j]));
            assert(h.committed[j].contains(h.committed[j][0]));
            assert(keep1.contains(cm[i][0]));
        } else {
            assert(x[j] == line);
            assert(line.contains(s));
            assert(keep1.contains(s));
        }
    }
    lemma_settled_lines_kept(cm, f.values, f.completed);
    let r2 = pruned_replace(rg, f.values, f.completed);
    let cut2 = groups_cut(rg, f.values, f.completed, rg.len() as int, 0);
    // The replacement groups stay the last committed lines.
    let rfinal_ok = if replace_mode { r2.len() <= cm.len() && r2 == cm.skip(cm.len() - r2.len()) } else { r2.len() == 0 };
    assert(rfinal_ok) by {
        if replace_mode {
            assert(h.replace.skip(cut1) == h.committed.skip(h.committed.len() - h.replace.len() + cut1)) by {
                assert(h.replace.skip(cut1) =~= h.committed.skip(h.committed.len() - h.replace.len() + cut1));
            }
            assert(rg == x.skip(x.len() - rg.len())) by {
                assert(rg =~= x.skip(x.len() - rg.len()));
            }
            assert forall|i: int| 0 <= i < rg.len() implies (#[trigger] rg[i]).len() == 1 && f.completed.contains(rg[i][0])
                && f.values.contains_key(rg[i][0]) && f.values[rg[i][0]]@.len() >= 1 by {
                let j = x.len() - rg.len() + i;
                assert(rg[i] == x[j]);
                if j < h.committed.len() {
                    assert(x[j] == h.committed[j]);
                    assert(settled_line(h, h.committed[j]));
                    assert(r1.contains(h.committed[j]) || true);
                    // the clause is referenced through the replacement groups
                    assert(r1[i] == rg[i]);
                    assert(r1[i].contains(rg[i][0]));
                    assert(keep1.contains(rg[i][0]));
                } else {
                    assert(keep1.contains(s));
                }
            }
            lemma_settled_lines_kept(rg, f.values, f.completed);
            assert forall|j: int| 0 <= j < rg.len() implies group_stable(#[trigger] rg[j], f.values, f.completed)
                >= long_translation() by {
                let k = rg[j][0];
                let jj = x.len() - rg.len() + j;
                assert(rg[j] == x[jj]);
                if jj < h.committed.len() {
                    assert(x[jj] == h.committed[jj]);
                    assert(settled_line(h, h.committed[jj]));
                    assert(f.values[k] == v0[k]);
                } else {
                    assert(x[jj] == line);
                }
                assert(rg[j] =~= seq![k]);
                lemma_line_stable(k, f.values, f.completed);
            }
            lemma_long_lines_cut(rg, f.values, f.completed, rg.len() as int, 0);
            assert(r2 == rg.skip(cut2));
            assert(r2 =~= cm.skip(cm.len() - r2.len()));
        } else {
            assert(pruned_groups(rg, f.values, f.completed) =~= rg);
            assert(nonempty_groups(rg) =~= rg);
        }
    }
    let g = pruned_history(HistoryView { current: Seq::empty(), committed: cm, replace: rg, values: f.values, completed: f.completed });
    assert(g == history_round(h, s, value, replace_mode));
    assert(g.committed == cm);
    assert(g.replace == r2);
    assert(drop_settled_empty(Seq::<u64>::empty(), f.values, f.completed) =~= Seq::<u64>::empty());
    assert(g.current =~= Seq::<u64>::empty());
    let keep2 = referenced(g.current, cm, r2);
    // The clauses kept are those of the committed lines.
    let keys = cm.map_values(|l: Seq<u64>| l[0]);
    assert forall|k: u64| keep2.contains(k) <==> keys.contains(k) by {
        if replace_mode {
            lemma_referenced_lines(g.current, cm, r2, k);
        } else {
            assert(r2.len() == 0);
        }
        if keep2.contains(k) {
            let i = choose|i: int| 0 <= i < cm.len() && #[trigger] cm[i].contains(k);
            assert(cm[i] =~= seq![cm[i][0]]);
            assert(keys[i] == k);
        }
        if keys.contains(k) {
            let i = choose|i: int| 0 <= i < keys.len() && keys[i] == k;
            assert(cm[i].contains(cm[i][0]));
            assert(keep2.contains(k));
        }
    }
    assert(g.values.dom() =~= keep2) by {
        assert forall|k: u64| keep2.contains(k) implies f.values.contains_key(k) by {
            assert(keys.contains(k));
            let i = choose|i: int| 0 <= i < keys.len() && keys[i] == k;
            assert(f.values.contains_key(cm[i][0]));
        }
    }
    assert(g.values.dom() =~= keys.to_set());
    keys.lemma_cardinality_of_set();
    assert forall|i: int| 0 <= i < g.committed.len() implies settled_line(g, #[trigger] g.committed[i]) by {
        let k = cm[i][0];
        assert(cm[i].contains(k));
        assert(keep2.contains(k));
    }
}

/// The history of a new document.
pub open spec fn empty_history() -> HistoryView {
    HistoryView {
        current: Seq::empty(),
        committed: Seq::empty(),
        replace: Seq::empty(),
        values: Map::empty(),
        completed: Set::empty(),
    }
}

/// Rounds one after another, each with its clause number and translation.
pub open spec fn history_rounds(h: HistoryView, rounds: Seq<(u64, String)>, replace_mode: bool) -> HistoryView
    decreases rounds.len(),
{
    if rounds.len() == 0 {
        h
    } else {
        let prev = history_rounds(h, rounds.drop_last(), replace_mode);
        history_round(prev, rounds.last().0, rounds.last().1, replace_mode)
    }
}

proof fn lemma_rounds_settled(rounds: Seq<(u64, String)>, replace_mode: bool)
    requires
        forall|i: int, j: int| 0 <= i < j < rounds.len() ==> rounds[i].0 < rounds[j].0,
        forall|i: int| 0 <= i < rounds.len() ==> (#[trigger] rounds[i]).1@.len() >= long_translation(),
    ensures
        settled_history(history_rounds(empty_history(), rounds, replace_mode), replace_mode),
        history_rounds(empty_history(), rounds, replace_mode).values.dom().len() <= MAX_COMMITTED,
        forall|k: u64| #[trigger] history_rounds(empty_history(), rounds, replace_mode).values.contains_key(k)
            ==> exists|i: int| 0 <= i < rounds.len() && rounds[i].0 == k,
    decreases rounds.len(),
{
    let e = empty_history();
    if rounds.len() == 0 {
        assert(e.values.dom() =~= referenced(e.current, e.committed, e.replace));
        assert(e.replace =~= e.committed.skip(0));
        assert(e.values.dom() =~= Set::<u64>::empty());
    } else {
        let init = rounds.drop_last();
        assert forall|i: int| 0 <= i < init.len() implies (#[trigger] init[i]).1@.len() >= long_translation() by {
            assert(init[i] == rounds[i]);
        }
        lemma_rounds_settled(init, replace_mode);
        let prev = history_rounds(e, init, replace_mode);
        let last = rounds.last();
        assert(last == rounds[rounds.len() - 1]);
        assert(!prev.values.contains_key(last.0)) by {
            if prev.values.contains_key(last.0) {
                let i = choose|i: int| 0 <= i < init.len() && init[i].0 == last.0;
                assert(init[i] == rounds[i]);
            }
        }
        law_settled_history_keeps_twelve_values(prev, last.0, last.1, replace_mode);
        let now = history_rounds(e, rounds, replace_mode);
        assert forall|k: u64| #[trigger] now.values.contains_key(k) implies exists|i: int| 0 <= i < rounds.len()
            && rounds[i].0 == k by {
            if prev.values.contains_key(k) {
                let i = choose|i: int| 0 <= i < init.len() && init[i].0 == k;
                assert(init[i] == rounds[i]);
            } else {
                assert(rounds[rounds.len() - 1].0 == k);
            }
        }
    }
}

/// Law: a new translation document that goes through any number of rounds, each
/// dispatching one clause with a fresh, larger number, finishing its translation of at
/// least `long_translation()` characters and committing it in the same display mode,
/// keeps at most `MAX_COMMITTED` translations.
pub proof fn law_finished_rounds_keep_twelve_values(rounds: Seq<(u64, String)>, replace_mode: bool)
    requires
        forall|i: int, j: int| 0 <= i < j < rounds.len() ==> rounds[i].0 < rounds[j].0,
        forall|i: int| 0 <= i < rounds.len() ==> (#[trigger] rounds[i]).1@.len() >= long_translation(),
    ensures
        history_rounds(empty_history(), rounds, replace_mode).values.dom().len() <= MAX_COMMITTED,
        settled_history(history_rounds(empty_history(), rounds, replace_mode), replace_mode),
{
    lemma_rounds_settled(rounds, replace_mode);
}

} // verus!
