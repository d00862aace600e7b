//! Bounded subtitle translation work queue: at most `MAX_ACTIVE` running requests and a
//! FIFO of waiting requests bounded by count and by payload bytes.
//!
//! Cancellation handles live with the caller: the queue reports which running requests
//! must be cancelled, and whether the owning session is stopped is passed in.
use vstd::prelude::*;

verus! {

pub const MAX_ACTIVE: usize = 8;
pub const MAX_PENDING: usize = 256;
pub const MAX_PENDING_BYTES: usize = 4194304;

pub struct Ready<T> {
    pub seq: u64,
    pub job: T,
}

pub struct Pending<T> {
    pub seq: u64,
    pub bytes: usize,
    pub job: T,
}

pub struct Queue<T> {
    pending: Vec<Pending<T>>,
    pending_bytes: usize,
    active: Vec<u64>,
}

/// Total payload bytes of waiting requests.
pub open spec fn bytes_total<T>(p: Seq<Pending<T>>) -> nat
    decreases p.len(),
{
    if p.len() == 0 { 0 } else { bytes_total(p.drop_last()) + (p.last().bytes as nat) }
}

pub open spec fn pending_seqs<T>(p: Seq<Pending<T>>) -> Seq<u64> {
    p.map_values(|x: Pending<T>| x.seq)
}

pub open spec fn ready_of<T>(p: Pending<T>) -> Ready<T> {
    Ready { seq: p.seq, job: p.job }
}

/// Waiting requests whose sequence number is still visible, in the order they came.
pub open spec fn keep_visible<T>(p: Seq<Pending<T>>, visible: Seq<u64>) -> Seq<Pending<T>>
    decreases p.len(),
{
    if p.len() == 0 {
        p
    } else if visible.contains(p.last().seq) {
        keep_visible(p.drop_last(), visible).push(p.last())
    } else {
        keep_visible(p.drop_last(), visible)
    }
}

/// How many waiting requests may start when `active` requests are running.
pub open spec fn free_slots(active: nat, waiting: nat) -> nat {
    if MAX_ACTIVE - active < waiting { (MAX_ACTIVE - active) as nat } else { waiting }
}

pub open spec fn stopped_message() -> Seq<char> {
    "字幕翻译已停止"@
}

pub open spec fn duplicate_message() -> Seq<char> {
    "字幕翻译任务重复"@
}

pub open spec fn full_message() -> Seq<char> {
    "翻译服务处理过慢，等待队列已满，本段未能翻译；原文字幕仍保留"@
}

proof fn lemma_bytes_total_front<T>(p: Seq<Pending<T>>)
    requires p.len() > 0,
    ensures bytes_total(p) == p[0].bytes + bytes_total(p.subrange(1, p.len() as int)),
    decreases p.len(),
{
    if p.len() == 1 {
        assert(p.drop_last() =~= Seq::<Pending<T>>::empty());
        assert(p.subrange(1, 1) =~= Seq::<Pending<T>>::empty());
    } else {
        lemma_bytes_total_front(p.drop_last());
        assert(p.drop_last().subrange(1, p.drop_last().len() as int)
            =~= p.subrange(1, p.len() as int).drop_last());
    }
}

proof fn lemma_keep_visible_seqs<T>(p: Seq<Pending<T>>, visible: Seq<u64>)
    ensures
        forall|i: int| 0 <= i < keep_visible(p, visible).len()
            ==> #[trigger] pending_seqs(p).contains(keep_visible(p, visible)[i].seq),
        bytes_total(keep_visible(p, visible)) <= bytes_total(p),
        keep_visible(p, visible).len() <= p.len(),
        pending_seqs(p).no_duplicates() ==> pending_seqs(keep_visible(p, visible)).no_duplicates(),
    decreases p.len(),
{
    if p.len() > 0 {
        let q = p.drop_last();
        lemma_keep_visible_seqs(q, visible);
        assert(pending_seqs(q) =~= pending_seqs(p).drop_last());
        let k = keep_visible(p, visible);
        assert forall|i: int| 0 <= i < k.len() implies #[trigger] pending_seqs(p).contains(k[i].seq) by {
            if visible.contains(p.last().seq) && i == k.len() - 1 {
                assert(pending_seqs(p)[p.len() - 1] == p.last().seq);
            } else {
                let kq = keep_visible(q, visible);
                assert(k[i] == kq[i]);
                assert(pending_seqs(q).contains(kq[i].seq));
                let j = choose|j: int| 0 <= j < pending_seqs(q).len() && pending_seqs(q)[j] == kq[i].seq;
                assert(pending_seqs(p)[j] == kq[i].seq);
            }
        }
        if visible.contains(p.last().seq) {
            let kq = keep_visible(q, visible);
            assert(k.drop_last() =~= kq);
            if pending_seqs(p).no_duplicates() {
                assert(pending_seqs(q).no_duplicates());
                assert forall|i: int, j: int| 0 <= i < k.len() && 0 <= j < k.len() && i != j
                    implies pending_seqs(k)[i] != pending_seqs(k)[j] by {
                    if i == k.len() - 1 || j == k.len() - 1 {
                        let o = if i == k.len() - 1 { j } else { i };
                        assert(pending_seqs(q).contains(kq[o].seq));
                        let m = choose|m: int| 0 <= m < pending_seqs(q).len() && pending_seqs(q)[m] == kq[o].seq;
                        assert(pending_seqs(p)[m] == pending_seqs(p)[p.len() - 1] ==> m == p.len() - 1);
                    } else {
                        assert(pending_seqs(kq)[i] != pending_seqs(kq)[j]);
                    }
                }
            }
        }
    }
}

proof fn lemma_bytes_total_prefix<T>(p: Seq<Pending<T>>, n: int)
    requires 0 <= n <= p.len(),
    ensures bytes_total(p.take(n)) <= bytes_total(p),
    decreases p.len() - n,
{
    if n < p.len() {
        lemma_bytes_total_prefix(p, n + 1);
        assert(p.take(n + 1).drop_last() =~= p.take(n));
    } else {
        assert(p.take(n) =~= p);
    }
}

fn contains_seq(v: &[u64], x: u64) -> (b: bool)
    ensures b == v@.contains(x),
{
    let mut i: usize = 0;
    while i < v.len()
        invariant
            i <= v@.len(),
            forall|j: int| 0 <= j < i ==> v@[j] != x,
        decreases v@.len() - i,
    {
        if v[i] == x {
            return true;
        }
        i += 1;
    }
    false
}

fn pending_contains<T>(p: &Vec<Pending<T>>, x: u64) -> (b: bool)
    ensures b == pending_seqs(p@).contains(x),
{
    let mut i: usize = 0;
    while i < p.len()
        invariant
            i <= p@.len(),
            forall|j: int| 0 <= j < i ==> p@[j].seq != x,
        decreases p@.len() - i,
    {
        if p[i].seq == x {
            assert(pending_seqs(p@)[i as int] == x);
            return true;
        }
        i += 1;
    }
    false
}

impl<T> Queue<T> {
    pub closed spec fn pending_view(&self) -> Seq<Pending<T>> {
        self.pending@
    }

    pub closed spec fn active_view(&self) -> Seq<u64> {
        self.active@
    }

    /// The queue's invariant: every bound holds, byte accounting is exact, and no
    /// sequence number is registered twice.
    pub closed spec fn wf(&self) -> bool {
        &&& self.active@.len() <= MAX_ACTIVE
        &&& self.active@.no_duplicates()
        &&& self.pending@.len() <= MAX_PENDING
        &&& self.pending_bytes == bytes_total(self.pending@)
        &&& self.pending_bytes <= MAX_PENDING_BYTES
        &&& pending_seqs(self.pending@).no_duplicates()
        &&& forall|s: u64| pending_seqs(self.pending@).contains(s) ==> !self.active@.contains(s)
    }

    pub closed spec fn bytes_view(&self) -> nat {
        self.pending_bytes as nat
    }

    /// What the invariant promises about the visible state.
    pub proof fn lemma_bounds(&self)
        requires self.wf(),
        ensures
            self.active_view().len() <= MAX_ACTIVE,
            self.pending_view().len() <= MAX_PENDING,
            self.bytes_view() == bytes_total(self.pending_view()),
            self.bytes_view() <= MAX_PENDING_BYTES,
            self.active_view().no_duplicates(),
            pending_seqs(self.pending_view()).no_duplicates(),
    {
    }

    pub fn new() -> (q: Self)
        ensures
            q.wf(),
            q.pending_view().len() == 0,
            q.active_view().len() == 0,
    {
        Queue { pending: Vec::new(), pending_bytes: 0, active: Vec::new() }
    }

    pub fn active_len(&self) -> (n: usize)
        ensures n == self.active_view().len(),
    {
        self.active.len()
    }

    pub fn pending_len(&self) -> (n: usize)
        ensures n == self.pending_view().len(),
    {
        self.pending.len()
    }

    pub fn pending_bytes(&self) -> (n: usize)
        ensures n == self.bytes_view(),
    {
        self.pending_bytes
    }

    /// The running requests; all of them are cancelled when the queue is dropped.
    pub fn active_seqs(&self) -> (v: Vec<u64>)
        ensures v@ == self.active_view(),
    {
        self.active.clone()
    }

    fn take_ready(&mut self, parent_cancelled: bool) -> (ready: Vec<Ready<T>>)
        requires old(self).wf(),
        ensures
            final(self).wf(),
            ({
                let p = old(self).pending@;
                let k = if parent_cancelled { 0 } else { free_slots(old(self).active@.len(), p.len()) };
                &&& ready@ == p.take(k as int).map_values(|x: Pending<T>| ready_of(x))
                &&& final(self).pending@ == p.skip(k as int)
                &&& final(self).active@ == old(self).active@ + pending_seqs(p.take(k as int))
            }),
    {
        let mut ready: Vec<Ready<T>> = Vec::new();
        if parent_cancelled {
            assert(old(self).pending@.skip(0) =~= old(self).pending@);
            assert(old(self).active@ + pending_seqs(old(self).pending@.take(0)) =~= old(self).active@);
            return ready;
        }
        let ghost p = old(self).pending@;
        let ghost a = old(self).active@;
        let ghost k = free_slots(a.len(), p.len());
        let mut taken: usize = 0;
        while self.active.len() < MAX_ACTIVE && self.pending.len() > 0
            invariant
                self.wf(),
                taken <= k,
                taken <= p.len(),
                k == free_slots(a.len(), p.len()),
                self.pending@ == p.skip(taken as int),
                self.active@ == a + pending_seqs(p.take(taken as int)),
                ready@ == p.take(taken as int).map_values(|x: Pending<T>| ready_of(x)),
                p.len() <= MAX_PENDING,
                a.len() <= MAX_ACTIVE,
            decreases self.pending@.len(),
        {
            let ghost before = self.pending@;
            let ghost before_active = self.active@;
            proof {
                lemma_bytes_total_front(before);
                assert(pending_seqs(before)[0] == before[0].seq);
                assert(before[0] == p[taken as int]);
            }
            let item = self.pending.remove(0);
            self.pending_bytes = self.pending_bytes - item.bytes;
            self.active.push(item.seq);
            ready.push(Ready { seq: item.seq, job: item.job });
            taken = taken + 1;
            proof {
                let rest = before.subrange(1, before.len() as int);
                assert(self.pending@ =~= rest);
                assert(pending_seqs(rest) =~= pending_seqs(before).subrange(1, before.len() as int));
                assert(pending_seqs(p.take(taken as int)) =~= pending_seqs(p.take(taken - 1)).push(item.seq));
                assert(p.take(taken as int).map_values(|x: Pending<T>| ready_of(x))
                    =~= p.take(taken - 1).map_values(|x: Pending<T>| ready_of(x)).push(ready_of(p[taken - 1])));
                assert(p.skip(taken as int) =~= rest);
                assert(self.active@ =~= a + pending_seqs(p.take(taken as int)));
                assert forall|s: u64| pending_seqs(self.pending@).contains(s) implies !self.active@.contains(s) by {
                    let j = choose|j: int| 0 <= j < pending_seqs(rest).len() && pending_seqs(rest)[j] == s;
                    assert(pending_seqs(before)[j + 1] == s);
                    assert(pending_seqs(before).contains(s));
                    assert(pending_seqs(before)[0] != pending_seqs(before)[j + 1]);
                    assert(s != item.seq);
                    assert(!before_active.contains(s));
                    assert(self.active@ =~= before_active.push(item.seq));
                    if self.active@.contains(s) {
                        let m = choose|m: int| 0 <= m < self.active@.len() && self.active@[m] == s;
                        if m < before_active.len() {
                            assert(before_active[m] == s);
                        }
                    }
                }
                assert(!before_active.contains(item.seq));
                assert forall|i: int, j: int| 0 <= i < self.active@.len() && 0 <= j < self.active@.len() && i != j
                    implies self.active@[i] != self.active@[j] by {
                    if i < before_active.len() && j < before_active.len() {
                        assert(before_active[i] != before_active[j]);
                    } else if i < before_active.len() {
                        assert(before_active[i] == self.active@[i]);
                    } else {
                        assert(before_active[j] == self.active@[j]);
                    }
                }
            }
        }
        ready
    }

    /// Registers request `seq`. It starts at once when nothing waits and a slot is free;
    /// otherwise it waits behind earlier requests, within the count and byte bounds.
    /// Returns the requests that start now, oldest first.
    pub fn enqueue(&mut self, seq: u64, bytes: usize, job: T, parent_cancelled: bool)
        -> (res: Result<Vec<Ready<T>>, String>)
        requires old(self).wf(),
        ensures
            final(self).wf(),
            parent_cancelled ==> res is Err && res->Err_0@ == stopped_message()
                && final(self).pending_view() == old(self).pending_view()
                && final(self).active_view() == old(self).active_view(),
            !parent_cancelled && (old(self).active_view().contains(seq)
                || pending_seqs(old(self).pending_view()).contains(seq)) ==> res is Err
                && res->Err_0@ == duplicate_message()
                && final(self).pending_view() == old(self).pending_view()
                && final(self).active_view() == old(self).active_view(),
            ({
                let p = old(self).pending_view();
                let a = old(self).active_view();
                let fresh = !parent_cancelled && !a.contains(seq) && !pending_seqs(p).contains(seq);
                let immediate = a.len() < MAX_ACTIVE && p.len() == 0;
                let fits = p.len() < MAX_PENDING && bytes + old(self).bytes_view() <= MAX_PENDING_BYTES;
                let q = p.push(Pending { seq, bytes, job });
                let k = free_slots(a.len(), q.len());
                &&& fresh && immediate ==> res is Ok
                    && res->Ok_0@ == seq![Ready { seq, job }]
                    && final(self).pending_view() == p
                    && final(self).active_view() == a.push(seq)
                &&& fresh && !immediate && !fits ==> res is Err
                    && res->Err_0@ == full_message()
                    && final(self).pending_view() == p
                    && final(self).active_view() == a
                &&& fresh && !immediate && fits ==> res is Ok
                    && res->Ok_0@ == q.take(k as int).map_values(|x: Pending<T>| ready_of(x))
                    && final(self).pending_view() == q.skip(k as int)
                    && final(self).active_view() == a + pending_seqs(q.take(k as int))
            }),
    {
        if parent_cancelled {
            return Err(String::from_str("字幕翻译已停止"));
        }
        if contains_seq(self.active.as_slice(), seq) || pending_contains(&self.pending, seq) {
            return Err(String::from_str("字幕翻译任务重复"));
        }
        if self.active.len() < MAX_ACTIVE && self.pending.len() == 0 {
            let ghost before = self.active@;
            self.active.push(seq);
            proof {
                assert forall|i: int, j: int| 0 <= i < self.active@.len() && 0 <= j < self.active@.len() && i != j
                    implies self.active@[i] != self.active@[j] by {
                    if i < before.len() && j < before.len() {
                        assert(before[i] != before[j]);
                    } else if i < before.len() {
                        assert(before[i] == self.active@[i]);
                    } else {
                        assert(before[j] == self.active@[j]);
                    }
                }
                assert(pending_seqs(self.pending@) =~= Seq::<u64>::empty());
            }
            let mut ready = Vec::new();
            ready.push(Ready { seq, job });
            proof { assert(ready@ =~= seq![Ready { seq, job }]); }
            return Ok(ready);
        }
        if self.pending.len() >= MAX_PENDING || bytes > MAX_PENDING_BYTES - self.pending_bytes {
            return Err(String::from_str("翻译服务处理过慢，等待队列已满，本段未能翻译；原文字幕仍保留"));
        }
        let ghost before = self.pending@;
        self.pending_bytes = self.pending_bytes + bytes;
        self.pending.push(Pending { seq, bytes, job });
        proof {
            assert(self.pending@.drop_last() =~= before);
            assert(pending_seqs(self.pending@) =~= pending_seqs(before).push(seq));
            assert forall|i: int, j: int| 0 <= i < pending_seqs(self.pending@).len()
                && 0 <= j < pending_seqs(self.pending@).len() && i != j
                implies pending_seqs(self.pending@)[i] != pending_seqs(self.pending@)[j] by {
                if i < before.len() && j < before.len() {
                    assert(pending_seqs(before)[i] != pending_seqs(before)[j]);
                } else if i < before.len() {
                    assert(pending_seqs(before)[i] == pending_seqs(self.pending@)[i]);
                } else {
                    assert(pending_seqs(before)[j] == pending_seqs(self.pending@)[j]);
                }
            }
            assert forall|s: u64| pending_seqs(self.pending@).contains(s) implies !self.active@.contains(s) by {
                let j = choose|j: int| 0 <= j < pending_seqs(self.pending@).len() && pending_seqs(self.pending@)[j] == s;
                if j < before.len() {
                    assert(pending_seqs(before)[j] == s);
                }
            }
        }
        Ok(self.take_ready(false))
    }

    /// Called once request `seq` has really exited: frees its slot and starts waiting
    /// requests in FIFO order. An unknown or already finished request changes nothing.
    pub fn finish(&mut self, seq: u64, parent_cancelled: bool) -> (ready: Vec<Ready<T>>)
        requires old(self).wf(),
        ensures
            final(self).wf(),
            !old(self).active_view().contains(seq) ==> ready@.len() == 0
                && final(self).pending_view() == old(self).pending_view()
                && final(self).active_view() == old(self).active_view(),
            old(self).active_view().contains(seq) ==> ({
                let p = old(self).pending_view();
                let a = old(self).active_view().remove_value(seq);
                let k = if parent_cancelled { 0 } else { free_slots(a.len(), p.len()) };
                &&& ready@ == p.take(k as int).map_values(|x: Pending<T>| ready_of(x))
                &&& final(self).pending_view() == p.skip(k as int)
                &&& final(self).active_view() == a + pending_seqs(p.take(k as int))
            }),
    {
        let mut i: usize = 0;
        while i < self.active.len()
            invariant
                i <= self.active@.len(),
                self.active@ == old(self).active@,
                forall|j: int| 0 <= j < i ==> self.active@[j] != seq,
            ensures
                i <= self.active@.len(),
                self.active@ == old(self).active@,
                forall|j: int| 0 <= j < i ==> self.active@[j] != seq,
                i < self.active@.len() ==> self.active@[i as int] == seq,
            decreases self.active@.len() - i,
        {
            if self.active[i] == seq {
                break;
            }
            i += 1;
        }
        if i == self.active.len() {
            proof {
                assert forall|j: int| 0 <= j < self.active@.len() implies self.active@[j] != seq by {}
            }
            return Vec::new();
        }
        let ghost before = self.active@;
        self.active.remove(i);
        proof {
            assert(before[i as int] == seq);
            assert(before.contains(seq));
            before.index_of_first_ensures(seq);
            assert(before.index_of_first(seq) == Some(i as int)) by {
                let f = before.index_of_first(seq);
                assert(f is Some);
                let fi = f->0;
                if fi < i as int {
                    assert(before[fi] != seq);
                } else if fi > i as int {
                    assert(before[i as int] != seq);
                }
            }
            assert(self.active@ =~= before.remove_value(seq));
            assert forall|a: int, b: int| 0 <= a < self.active@.len() && 0 <= b < self.active@.len() && a != b
                implies self.active@[a] != self.active@[b] by {
                let a2 = if a < i { a } else { a + 1 };
                let b2 = if b < i { b } else { b + 1 };
                assert(before[a2] != before[b2]);
            }
            assert forall|s: u64| pending_seqs(self.pending@).contains(s) implies !self.active@.contains(s) by {
                assert(pending_seqs(old(self).pending@).contains(s));
                assert(!before.contains(s));
                if self.active@.contains(s) {
                    let m = choose|m: int| 0 <= m < self.active@.len() && self.active@[m] == s;
                    let m2 = if m < i { m } else { m + 1 };
                    assert(before[m2] == s);
                }
            }
        }
        self.take_ready(parent_cancelled)
    }

    /// Drops waiting requests that are no longer visible, keeping the others in order, and
    /// returns the running requests that must be cancelled. A cancelled request keeps its
    /// slot until `finish` reports that it exited.
    pub fn retain(&mut self, visible: &[u64]) -> (cancel: Vec<u64>)
        requires old(self).wf(),
        ensures
            final(self).wf(),
            final(self).pending_view() == keep_visible(old(self).pending_view(), visible@),
            final(self).active_view() == old(self).active_view(),
            cancel@ == old(self).active_view().filter(|s: u64| !visible@.contains(s)),
    {
        let ghost p = self.pending@;
        let mut kept: Vec<Pending<T>> = Vec::new();
        let mut kept_bytes: usize = 0;
        let mut done: usize = 0;
        while self.pending.len() > 0
            invariant
                done <= p.len(),
                self.pending@ == p.skip(done as int),
                kept@ == keep_visible(p.take(done as int), visible@),
                kept_bytes == bytes_total(kept@),
                bytes_total(p) <= MAX_PENDING_BYTES,
                p.len() <= MAX_PENDING,
                self.active@ == old(self).active@,
            decreases self.pending@.len(),
        {
            let ghost rest = self.pending@;
            let item = self.pending.remove(0);
            proof {
                assert(item == p[done as int]);
                assert(p.take(done + 1).drop_last() =~= p.take(done as int));
                assert(p.take(done + 1).last() == item);
                lemma_keep_visible_seqs(p.take(done + 1), visible@);
                lemma_bytes_total_prefix(p, done + 1);
                assert(p.skip(done + 1) =~= rest.subrange(1, rest.len() as int));
            }
            done = done + 1;
            if contains_seq(visible, item.seq) {
                let ghost prev = kept@;
                proof {
                    assert(keep_visible(p.take(done as int), visible@) == prev.push(item));
                    assert(bytes_total(prev.push(item)) == bytes_total(prev) + item.bytes) by {
                        assert(prev.push(item).drop_last() =~= prev);
                    }
                }
                kept_bytes = kept_bytes + item.bytes;
                kept.push(item);
            }
        }
        proof {
            assert(done == p.len());
            assert(p.take(p.len() as int) =~= p);
            assert(kept@ == keep_visible(p, visible@));
            lemma_keep_visible_seqs(p, visible@);
            assert forall|s: u64| pending_seqs(kept@).contains(s) implies !self.active@.contains(s) by {
                let j = choose|j: int| 0 <= j < pending_seqs(kept@).len() && pending_seqs(kept@)[j] == s;
                assert(pending_seqs(kept@)[j] == kept@[j].seq);
                assert(pending_seqs(p).contains(kept@[j].seq));
                assert(pending_seqs(old(self).pending@).contains(s));
                assert(!old(self).active@.contains(s));
            }
        }
        self.pending = kept;
        self.pending_bytes = kept_bytes;
        let mut cancel: Vec<u64> = Vec::new();
        let mut i: usize = 0;
        while i < self.active.len()
            invariant
                i <= self.active@.len(),
                self.wf(),
                self.active@ == old(self).active@,
                self.pending@ == keep_visible(old(self).pending@, visible@),
                cancel@ == self.active@.take(i as int).filter(|s: u64| !visible@.contains(s)),
            decreases self.active@.len() - i,
        {
            let s = self.active[i];
            proof {
                reveal_with_fuel(Seq::filter, 1);
                assert(self.active@.take(i + 1).drop_last() =~= self.active@.take(i as int));
            }
            if !contains_seq(visible, s) {
                cancel.push(s);
            }
            i += 1;
        }
        proof { assert(self.active@.take(self.active@.len() as int) =~= self.active@); }
        cancel
    }
}

} // verus!
