//! Domain rules of a subtitle document: the timeline is sorted, blank cues are
//! dropped, overlaps and too-short cues are repaired, and the result exports as SRT.
use vstd::prelude::*;
use crate::text::{
    is_blank, trim, decimal, zero_padded, chars_of, string_of, trim_chars, exec_is_blank,
    push_all, zero_padded_chars, decimal_chars,
};

verus! {

/// Shortest duration a cue keeps after normalisation.
pub const MIN_CUE_MS: i64 = 300;

pub struct SubtitleCue {
    pub id: String,
    pub begin_ms: i64,
    pub end_ms: i64,
    pub text: String,
    pub speaker_id: Option<String>,
}

/// What a cue is, as plain values.
pub struct CueModel {
    pub id: Seq<char>,
    pub begin: int,
    pub end: int,
    pub text: Seq<char>,
    pub speaker: Option<Seq<char>>,
}

impl View for SubtitleCue {
    type V = CueModel;

    open spec fn view(&self) -> CueModel {
        CueModel {
            id: self.id@,
            begin: self.begin_ms as int,
            end: self.end_ms as int,
            text: self.text@,
            speaker: match self.speaker_id {
                Some(s) => Some(s@),
                None => None,
            },
        }
    }
}

pub open spec fn models(v: Seq<SubtitleCue>) -> Seq<CueModel> {
    v.map_values(|c: SubtitleCue| c@)
}

/// A cue survives when its text is not blank.
pub open spec fn kept(s: Seq<CueModel>) -> Seq<CueModel>
    decreases s.len(),
{
    if s.len() == 0 {
        s
    } else if is_blank(s.last().text) {
        kept(s.drop_last())
    } else {
        kept(s.drop_last()).push(s.last())
    }
}

/// `a` sorts strictly after `b` by (begin, end).
pub open spec fn later(a: CueModel, b: CueModel) -> bool {
    a.begin > b.begin || (a.begin == b.begin && a.end > b.end)
}

/// Inserts `x` after every leading cue that does not sort after it.
pub open spec fn insert_cue(s: Seq<CueModel>, x: CueModel) -> Seq<CueModel>
    decreases s.len(),
{
    if s.len() == 0 {
        seq![x]
    } else if later(s[0], x) {
        seq![x] + s
    } else {
        seq![s[0]] + insert_cue(s.drop_first(), x)
    }
}

/// Stable sort by (begin, end): cues with equal keys keep their input order.
pub open spec fn sort_cues(s: Seq<CueModel>) -> Seq<CueModel>
    decreases s.len(),
{
    if s.len() == 0 {
        s
    } else {
        insert_cue(sort_cues(s.drop_last()), s.last())
    }
}

pub open spec fn max_int(a: int, b: int) -> int {
    if a >= b { a } else { b }
}

/// One cue after repair, given where the previous one ended.
pub open spec fn repaired(c: CueModel, previous_end: int) -> CueModel {
    let begin = max_int(max_int(c.begin, 0), previous_end);
    CueModel {
        id: c.id,
        begin: begin,
        end: max_int(c.end, begin + MIN_CUE_MS),
        text: trim(c.text),
        speaker: c.speaker,
    }
}

/// Repairs a sorted timeline from front to back.
pub open spec fn repair(s: Seq<CueModel>, previous_end: int) -> Seq<CueModel>
    decreases s.len(),
{
    if s.len() == 0 {
        s
    } else {
        let c = repaired(s[0], previous_end);
        seq![c] + repair(s.drop_first(), c.end)
    }
}

/// The normalised timeline.
pub open spec fn normalize(s: Seq<CueModel>) -> Seq<CueModel> {
    repair(sort_cues(kept(s)), 0)
}

/// Every repaired cue still starts far enough from `i64::MAX` to add the minimum duration.
pub open spec fn fits(s: Seq<CueModel>) -> bool {
    forall|k: int| 0 <= k < normalize(s).len() ==> #[trigger] normalize(s)[k].begin + MIN_CUE_MS <= i64::MAX
}

pub open spec fn sorted_cues(s: Seq<CueModel>) -> bool {
    forall|i: int, j: int| 0 <= i < j < s.len() ==> !later(#[trigger] s[i], #[trigger] s[j])
}

proof fn lemma_insert_at(s: Seq<CueModel>, x: CueModel, p: int)
    requires
        0 <= p <= s.len(),
        forall|j: int| 0 <= j < p ==> !later(#[trigger] s[j], x),
        p == s.len() || later(s[p], x),
    ensures
        insert_cue(s, x) == s.insert(p, x),
    decreases p,
{
    if s.len() == 0 {
        assert(s.insert(p, x) =~= seq![x]);
    } else if p == 0 {
        assert(s.insert(0, x) =~= seq![x] + s);
    } else {
        let t = s.drop_first();
        assert forall|j: int| 0 <= j < p - 1 implies !later(#[trigger] t[j], x) by {
            assert(t[j] == s[j + 1]);
        }
        lemma_insert_at(t, x, p - 1);
        assert(seq![s[0]] + t.insert(p - 1, x) =~= s.insert(p, x));
    }
}

/// Inserting into a sorted timeline keeps it sorted and adds exactly the new cue.
pub proof fn lemma_insert_cue(s: Seq<CueModel>, x: CueModel)
    requires
        sorted_cues(s),
    ensures
        sorted_cues(insert_cue(s, x)),
        insert_cue(s, x).to_multiset() == s.to_multiset().insert(x),
        insert_cue(s, x).len() == s.len() + 1,
    decreases s.len(),
{
    broadcast use vstd::seq_lib::group_to_multiset_ensures;
    broadcast use vstd::multiset::group_multiset_axioms;
    if s.len() == 0 {
        assert(seq![x] =~= s.insert(0, x));
    } else if later(s[0], x) {
        let r = seq![x] + s;
        assert(r =~= s.insert(0, x));
        assert forall|i: int, j: int| 0 <= i < j < r.len() implies !later(#[trigger] r[i], #[trigger] r[j]) by {
            if i > 0 {
                assert(r[i] == s[i - 1] && r[j] == s[j - 1]);
            } else {
                assert(r[j] == s[j - 1]);
                if j - 1 > 0 {
                    assert(!later(s[0], s[j - 1]));
                }
            }
        }
    } else {
        let t = s.drop_first();
        assert(sorted_cues(t)) by {
            assert forall|i: int, j: int| 0 <= i < j < t.len() implies !later(#[trigger] t[i], #[trigger] t[j]) by {
                assert(t[i] == s[i + 1] && t[j] == s[j + 1]);
            }
        }
        lemma_insert_cue(t, x);
        let it = insert_cue(t, x);
        let r = seq![s[0]] + it;
        assert(r == insert_cue(s, x));
        vstd::seq_lib::lemma_multiset_commutative(seq![s[0]], it);
        vstd::seq_lib::lemma_multiset_commutative(seq![s[0]], t);
        assert(s =~= seq![s[0]] + t);
        assert(r.to_multiset() =~= s.to_multiset().insert(x));
        assert forall|i: int, j: int| 0 <= i < j < r.len() implies !later(#[trigger] r[i], #[trigger] r[j]) by {
            if i > 0 {
                assert(r[i] == it[i - 1] && r[j] == it[j - 1]);
            } else {
                let y = it[j - 1];
                assert(r[j] == y);
                assert(it.contains(y));
                assert(it.to_multiset().count(y) > 0);
                if y != x {
                    assert(t.to_multiset().count(y) > 0);
                    assert(t.contains(y));
                    let k = choose|k: int| 0 <= k < t.len() && t[k] == y;
                    assert(s[k + 1] == t[k]);
                }
            }
        }
    }
}

/// The sort orders the timeline by (begin, end) and neither loses nor adds a cue.
pub proof fn lemma_sort_cues(s: Seq<CueModel>)
    ensures
        sorted_cues(sort_cues(s)),
        sort_cues(s).to_multiset() == s.to_multiset(),
        sort_cues(s).len() == s.len(),
    decreases s.len(),
{
    broadcast use vstd::seq_lib::group_to_multiset_ensures;
    if s.len() > 0 {
        lemma_sort_cues(s.drop_last());
        lemma_insert_cue(sort_cues(s.drop_last()), s.last());
        assert(s =~= s.drop_last().push(s.last()));
    }
}

proof fn lemma_repair(s: Seq<CueModel>, previous_end: int)
    requires
        previous_end >= 0,
    ensures
        repair(s, previous_end).len() == s.len(),
        forall|k: int| 0 <= k < s.len() ==> {
            let r = #[trigger] repair(s, previous_end)[k];
            &&& r.begin >= 0
            &&& r.end >= r.begin + MIN_CUE_MS
            &&& r.id == s[k].id
            &&& r.text == trim(s[k].text)
            &&& r.speaker == s[k].speaker
        },
        s.len() > 0 ==> repair(s, previous_end)[0].begin >= previous_end,
        forall|k: int| 0 < k < s.len() ==> #[trigger] repair(s, previous_end)[k].begin >= repair(s, previous_end)[k - 1].end,
    decreases s.len(),
{
    if s.len() > 0 {
        let c = repaired(s[0], previous_end);
        let t = s.drop_first();
        lemma_repair(t, c.end);
        let r = repair(s, previous_end);
        assert forall|k: int| 0 < k < s.len() implies #[trigger] r[k].begin >= r[k - 1].end by {
            assert(r[k] == repair(t, c.end)[k - 1]);
            if k > 1 {
                assert(r[k - 1] == repair(t, c.end)[k - 2]);
            }
        }
        assert forall|k: int| 0 < k < s.len() implies #[trigger] r[k] == repair(t, c.end)[k - 1] by {}
        assert forall|k: int| 0 < k < s.len() implies s[k] == t[k - 1] by {}
    }
}

/// A normalised timeline keeps every non-blank cue and no other, in (begin, end)
/// order of the input; every cue starts at or after 0 and at or after the end of the
/// cue before it, lasts at least `MIN_CUE_MS`, and has its text trimmed.
pub proof fn lemma_normalized_timeline(s: Seq<CueModel>)
    ensures
        normalize(s).len() == kept(s).len(),
        forall|k: int| 0 <= k < normalize(s).len() ==> {
            let c = #[trigger] normalize(s)[k];
            &&& c.begin >= 0
            &&& c.end >= c.begin + MIN_CUE_MS
            &&& c.text == trim(sort_cues(kept(s))[k].text)
            &&& c.id == sort_cues(kept(s))[k].id
        },
        forall|k: int| 0 < k < normalize(s).len() ==> #[trigger] normalize(s)[k].begin >= normalize(s)[k - 1].end,
        sorted_cues(sort_cues(kept(s))),
        sort_cues(kept(s)).to_multiset() == kept(s).to_multiset(),
{
    lemma_sort_cues(kept(s));
    lemma_repair(sort_cues(kept(s)), 0);
}

/// Where `x` goes among the already sorted cues: after every cue that does not sort after it.
fn insert_position(sorted: &Vec<SubtitleCue>, x: &SubtitleCue) -> (p: usize)
    ensures
        p <= sorted@.len(),
        forall|j: int| 0 <= j < p ==> !later(#[trigger] sorted@[j]@, x@),
        p == sorted@.len() || later(sorted@[p as int]@, x@),
{
    let mut p: usize = 0;
    while p < sorted.len()
        invariant
            p <= sorted@.len(),
            forall|j: int| 0 <= j < p ==> !later(#[trigger] sorted@[j]@, x@),
        decreases sorted@.len() - p,
    {
        let c = &sorted[p];
        if c.begin_ms > x.begin_ms || (c.begin_ms == x.begin_ms && c.end_ms > x.end_ms) {
            return p;
        }
        p += 1;
    }
    p
}

/// Drops the blank cues, keeping the others in order.
fn keep_non_blank(cues: Vec<SubtitleCue>) -> (out: Vec<SubtitleCue>)
    ensures
        models(out@) == kept(models(cues@)),
{
    let ghost all = models(cues@);
    let mut rest = cues;
    let mut out: Vec<SubtitleCue> = Vec::new();
    let ghost mut k: int = 0;
    while rest.len() > 0
        invariant
            0 <= k <= all.len(),
            models(rest@) == all.skip(k),
            rest@.len() == all.len() - k,
            models(out@) == kept(all.take(k)),
        decreases rest@.len(),
    {
        let ghost rest0 = rest@;
        let c = rest.remove(0);
        proof {
            assert(all.take(k + 1).drop_last() =~= all.take(k));
            assert(models(rest0)[0] == c@);
            assert forall|i: int| 0 <= i < rest@.len() implies #[trigger] models(rest@)[i] == all.skip(k + 1)[i] by {
                assert(rest@[i] == rest0[i + 1]);
                assert(models(rest0)[i + 1] == all.skip(k)[i + 1]);
            }
            assert(models(rest@) =~= all.skip(k + 1));
        }
        if !exec_is_blank(c.text.as_str()) {
            out.push(c);
            proof { assert(models(out@) =~= kept(all.take(k)).push(c@)); }
        }
        proof { k = k + 1; }
    }
    proof {
        assert(all.skip(k).len() == 0);
        assert(all.take(k) =~= all);
    }
    out
}

/// Stable insertion sort by (begin, end).
fn sort_by_time(cues: Vec<SubtitleCue>) -> (out: Vec<SubtitleCue>)
    ensures
        models(out@) == sort_cues(models(cues@)),
{
    let ghost all = models(cues@);
    let mut rest = cues;
    let mut out: Vec<SubtitleCue> = Vec::new();
    let ghost mut k: int = 0;
    while rest.len() > 0
        invariant
            0 <= k <= all.len(),
            models(rest@) == all.skip(k),
            rest@.len() == all.len() - k,
            models(out@) == sort_cues(all.take(k)),
        decreases rest@.len(),
    {
        let ghost rest0 = rest@;
        let c = rest.remove(0);
        proof {
            assert(all.take(k + 1).drop_last() =~= all.take(k));
            assert(models(rest0)[0] == c@);
            assert forall|i: int| 0 <= i < rest@.len() implies #[trigger] models(rest@)[i] == all.skip(k + 1)[i] by {
                assert(rest@[i] == rest0[i + 1]);
                assert(models(rest0)[i + 1] == all.skip(k)[i + 1]);
            }
            assert(models(rest@) =~= all.skip(k + 1));
        }
        let p = insert_position(&out, &c);
        proof {
            let m = models(out@);
            assert forall|j: int| 0 <= j < p implies !later(#[trigger] m[j], c@) by {
                assert(m[j] == out@[j]@);
            }
            lemma_insert_at(m, c@, p as int);
        }
        let ghost before = out@;
        out.insert(p, c);
        proof {
            assert(models(out@) =~= models(before).insert(p as int, c@));
            k = k + 1;
        }
    }
    proof {
        assert(all.take(k) =~= all);
    }
    out
}

/// Sorts the cues by (begin, end), drops blank ones and repairs overlaps and
/// too-short cues: each cue is trimmed, starts no earlier than 0 and than the end
/// of the cue before it, and lasts at least `MIN_CUE_MS`.
pub fn normalize_timeline(cues: Vec<SubtitleCue>) -> (out: Vec<SubtitleCue>)
    requires
        fits(models(cues@)),
    ensures
        models(out@) == normalize(models(cues@)),
{
    let ghost whole = normalize(models(cues@));
    let sorted = sort_by_time(keep_non_blank(cues));
    let mut rest = sorted;
    let mut out: Vec<SubtitleCue> = Vec::new();
    let mut previous_end: i64 = 0;
    while rest.len() > 0
        invariant
            models(out@) + repair(models(rest@), previous_end as int) == whole,
            forall|k: int| 0 <= k < whole.len() ==> #[trigger] whole[k].begin + MIN_CUE_MS <= i64::MAX,
        decreases rest@.len(),
    {
        let ghost rest0 = rest@;
        let ghost prev0 = previous_end;
        let c = rest.remove(0);
        let ghost r = repaired(c@, previous_end as int);
        proof {
            let m = models(rest0);
            assert(m =~= seq![c@] + models(rest@));
            assert(m.drop_first() =~= models(rest@));
            assert(whole[out@.len() as int] == r);
        }
        let mut begin = if c.begin_ms > 0 { c.begin_ms } else { 0 };
        if previous_end > begin {
            begin = previous_end;
        }
        assert(begin as int == r.begin);
        let shortest = begin + MIN_CUE_MS;
        let end = if c.end_ms > shortest { c.end_ms } else { shortest };
        let trimmed = string_of(trim_chars(chars_of(c.text.as_str()).as_slice()).as_slice());
        let fixed = SubtitleCue { id: c.id, begin_ms: begin, end_ms: end, text: trimmed, speaker_id: c.speaker_id };
        assert(fixed@ == r);
        let ghost before = out@;
        out.push(fixed);
        previous_end = end;
        proof {
            assert(models(out@) =~= models(before).push(r));
            assert(models(out@) + repair(models(rest@), previous_end as int) =~= models(before) + repair(
                models(rest0), prev0 as int));
        }
    }
    proof {
        assert(models(out@) + repair(models(rest@), previous_end as int) =~= models(out@));
    }
    out
}

/// `HH:MM:SS,mmm`; negative times count as zero and hours may take more than two digits.
pub open spec fn srt_time(value: int) -> Seq<char> {
    let v = max_int(value, 0);
    zero_padded((v / 3_600_000) as nat, 2) + seq![':'] + zero_padded(((v % 3_600_000) / 60_000) as nat, 2)
        + seq![':'] + zero_padded(((v % 60_000) / 1_000) as nat, 2) + seq![','] + zero_padded(
        (v % 1_000) as nat,
        3,
    )
}

/// The text line of a cue, prefixed by its speaker when it has a non-empty one.
pub open spec fn cue_label(c: CueModel) -> Seq<char> {
    if c.speaker is Some && c.speaker->0.len() > 0 {
        seq!['说', '话', '人', ' '] + c.speaker->0 + seq!['：'] + c.text
    } else {
        c.text
    }
}

/// The SRT block of the cue at `index` (numbered from one).
pub open spec fn srt_block(index: nat, c: CueModel) -> Seq<char> {
    decimal(index + 1) + seq!['\r', '\n'] + srt_time(c.begin) + seq![' ', '-', '-', '>', ' '] + srt_time(c.end)
        + seq!['\r', '\n'] + cue_label(c)
}

/// The blocks of all cues, separated by blank lines.
pub open spec fn srt_blocks(s: Seq<CueModel>) -> Seq<char>
    decreases s.len(),
{
    if s.len() == 0 {
        Seq::empty()
    } else if s.len() == 1 {
        srt_block(0, s[0])
    } else {
        srt_blocks(s.drop_last()) + seq!['\r', '\n', '\r', '\n'] + srt_block((s.len() - 1) as nat, s.last())
    }
}

/// The SRT file of a cue list: its normalised timeline, block after block, ending in a line break.
pub open spec fn srt(s: Seq<CueModel>) -> Seq<char> {
    srt_blocks(normalize(s)) + seq!['\r', '\n']
}

fn push_str_chars(out: &mut Vec<char>, s: &str)
    ensures
        final(out)@ == old(out)@ + s@,
{
    let v = chars_of(s);
    push_all(out, v.as_slice());
}

fn srt_time_chars(value: i64) -> (v: Vec<char>)
    ensures
        v@ == srt_time(value as int),
{
    let t: u64 = if value > 0 { value as u64 } else { 0 };
    let mut v = zero_padded_chars(t / 3_600_000, 2);
    v.push(':');
    let m = zero_padded_chars((t % 3_600_000) / 60_000, 2);
    push_all(&mut v, m.as_slice());
    v.push(':');
    let sec = zero_padded_chars((t % 60_000) / 1_000, 2);
    push_all(&mut v, sec.as_slice());
    v.push(',');
    let ms = zero_padded_chars(t % 1_000, 3);
    push_all(&mut v, ms.as_slice());
    v
}

/// `HH:MM:SS,mmm` of a time in milliseconds.
pub fn format_srt_time(value: i64) -> (s: String)
    ensures
        s@ == srt_time(value as int),
{
    let v = srt_time_chars(value);
    string_of(v.as_slice())
}

fn srt_block_chars(index: usize, c: &SubtitleCue) -> (v: Vec<char>)
    requires
        index < usize::MAX,
    ensures
        v@ == srt_block(index as nat, c@),
{
    let mut v = decimal_chars(index as u64 + 1);
    v.push('\r');
    v.push('\n');
    let ghost p1 = v@;
    assert(p1 =~= decimal(index as nat + 1) + seq!['\r', '\n']);
    let b = srt_time_chars(c.begin_ms);
    push_all(&mut v, b.as_slice());
    v.push(' ');
    v.push('-');
    v.push('-');
    v.push('>');
    v.push(' ');
    let ghost p2 = v@;
    assert(p2 =~= p1 + srt_time(c@.begin) + seq![' ', '-', '-', '>', ' ']);
    let e = srt_time_chars(c.end_ms);
    push_all(&mut v, e.as_slice());
    v.push('\r');
    v.push('\n');
    let ghost head = v@;
    assert(head =~= p2 + srt_time(c@.end) + seq!['\r', '\n']);
    let label = label_chars(c);
    push_all(&mut v, label.as_slice());
    v
}

fn label_chars(c: &SubtitleCue) -> (v: Vec<char>)
    ensures
        v@ == cue_label(c@),
{
    let mut v: Vec<char> = Vec::new();
    match &c.speaker_id {
        Some(speaker) if !speaker.as_str().is_empty() => {
            v.push('说');
            v.push('话');
            v.push('人');
            v.push(' ');
            push_str_chars(&mut v, speaker.as_str());
            v.push('：');
            push_str_chars(&mut v, c.text.as_str());
            assert(v@ =~= seq!['说', '话', '人', ' '] + speaker@ + seq!['：'] + c.text@);
        },
        _ => {
            push_str_chars(&mut v, c.text.as_str());
            assert(v@ =~= c.text@);
        },
    }
    v
}

/// Exports the cues as an SRT file after normalising the timeline.
pub fn to_srt(cues: Vec<SubtitleCue>) -> (s: String)
    requires
        fits(models(cues@)),
    ensures
        s@ == srt(models(cues@)),
{
    let cues = normalize_timeline(cues);
    let ghost m = models(cues@);
    let mut out: Vec<char> = Vec::new();
    let mut i: usize = 0;
    while i < cues.len()
        invariant
            i <= cues@.len(),
            m == models(cues@),
            out@ == srt_blocks(m.take(i as int)),
        decreases cues@.len() - i,
    {
        let ghost before = out@;
        if i > 0 {
            out.push('\r');
            out.push('\n');
            out.push('\r');
            out.push('\n');
        }
        let block = srt_block_chars(i, &cues[i]);
        push_all(&mut out, block.as_slice());
        proof {
            let t = m.take(i + 1);
            assert(t.drop_last() =~= m.take(i as int));
            assert(t.last() == cues@[i as int]@);
            if i == 0 {
                assert(out@ =~= srt_blocks(t));
            } else {
                assert(out@ =~= before + seq!['\r', '\n', '\r', '\n'] + srt_block(i as nat, t.last()));
            }
        }
        i += 1;
    }
    proof {
        assert(m.take(i as int) =~= m);
    }
    out.push('\r');
    out.push('\n');
    string_of(out.as_slice())
}

} // verus!
