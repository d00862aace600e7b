//! Recorded-audio recognition jobs: what a job is for, and the runtime projection that
//! lets a rebuilt window recover running jobs and the latest result of each page.
use vstd::prelude::*;
use crate::idle_reclaim::{DomainRunState, DomainSnapshot};
use crate::json::{Json, member, member_text, set_member};
use crate::sorting::{by_rank, lemma_ranked_sort, ranked_sort, sort_by_rank};
use crate::str_map::StrMap;
use crate::text::{chars_of, str_chars_eq, str_eq, trim, trim_chars};

verus! {

/// The purposes a recognition job can be registered for.
pub open spec fn known_job_kind(kind: Seq<char>) -> bool {
    kind == "transcribe"@ || kind == "align"@ || kind == "compare"@ || kind == "dictation"@
}

/// The purpose a job is recorded with: the trimmed kind when it is a known one,
/// otherwise `transcribe`.
pub open spec fn job_kind(kind: Seq<char>) -> Seq<char> {
    if known_job_kind(trim(kind)) { trim(kind) } else { "transcribe"@ }
}

pub fn normalize_job_kind(kind: &str) -> (r: &'static str)
    ensures
        r@ == job_kind(kind@),
{
    let k = trim_chars(chars_of(kind).as_slice());
    let transcribe = chars_of("transcribe");
    let align = chars_of("align");
    let compare = chars_of("compare");
    let dictation = chars_of("dictation");
    if str_chars_eq(k.as_slice(), transcribe.as_slice()) {
        "transcribe"
    } else if str_chars_eq(k.as_slice(), align.as_slice()) {
        "align"
    } else if str_chars_eq(k.as_slice(), compare.as_slice()) {
        "compare"
    } else if str_chars_eq(k.as_slice(), dictation.as_slice()) {
        "dictation"
    } else {
        "transcribe"
    }
}

/// What the runtime keeps of a job for window recovery.
#[derive(Debug)]
pub struct TranscriptionJobSnapshot {
    pub job_id: String,
    pub kind: String,
    pub stage: String,
    pub active: bool,
    pub payload: Json,
}

pub struct JobView {
    pub job_id: Seq<char>,
    pub kind: Seq<char>,
    pub stage: Seq<char>,
    pub active: bool,
    pub payload: Json,
}

impl View for TranscriptionJobSnapshot {
    type V = JobView;

    open spec fn view(&self) -> JobView {
        JobView {
            job_id: self.job_id@,
            kind: self.kind@,
            stage: self.stage@,
            active: self.active,
            payload: self.payload,
        }
    }
}

/// The member `k` of the payload before the event fields are added: an object's own
/// member, or for any other value the value itself under `data`.
pub open spec fn base_member(payload: Json, k: Seq<char>) -> Option<Json> {
    match payload {
        Json::Object(m) => member(m@, k),
        _ => if k == "data"@ { Some(payload) } else { None },
    }
}

/// `p` is the payload an event of job `job_id` at `stage` is delivered with: the
/// incoming payload (see [`base_member`]) with `jobId`, `stage` and `kind` set.
pub open spec fn is_event_payload(p: Json, payload: Json, job_id: Seq<char>, stage: Seq<char>, kind: Seq<char>) -> bool {
    &&& p is Object
    &&& member_text(p->Object_0@, "jobId"@) == Some(job_id)
    &&& member_text(p->Object_0@, "stage"@) == Some(stage)
    &&& member_text(p->Object_0@, "kind"@) == Some(kind)
    &&& forall|k: Seq<char>| k != "jobId"@ && k != "stage"@ && k != "kind"@
        ==> #[trigger] member(p->Object_0@, k) == base_member(payload, k)
}

proof fn lemma_event_keys_distinct()
    ensures
        "jobId"@ != "stage"@,
        "jobId"@ != "kind"@,
        "stage"@ != "kind"@,
{
    reveal_strlit("jobId");
    reveal_strlit("stage");
    reveal_strlit("kind");
    assert("jobId"@[0] != "stage"@[0]);
    assert("jobId"@[0] != "kind"@[0]);
    assert("stage"@[0] != "kind"@[0]);
}

/// The payload an event is delivered and kept with (see [`is_event_payload`]).
pub fn event_payload(payload: Json, job_id: &str, stage: &str, kind: &str) -> (p: Json)
    ensures
        is_event_payload(p, payload, job_id@, stage@, kind@),
{
    let ghost incoming = payload;
    let members = match payload {
        Json::Object(m) => m,
        other => {
            let mut v: Vec<(String, Json)> = Vec::new();
            v.push((String::from_str("data"), other));
            proof {
                let s = v@;
                assert(s[0].1 == incoming);
                assert(!(incoming is Object));
                assert forall|k: Seq<char>| #[trigger] member(s, k) == base_member(incoming, k) by {
                    assert(s.drop_first().len() == 0);
                    assert(member(s.drop_first(), k) is None);
                }
            }
            v
        },
    };
    proof {
        assert forall|k: Seq<char>| #[trigger] member(members@, k) == base_member(incoming, k) by {
            if incoming is Object {
            }
        }
        lemma_event_keys_distinct();
    }
    let a = set_member(members, String::from_str("jobId"), Json::Str(String::from_str(job_id)));
    let b = set_member(a, String::from_str("stage"), Json::Str(String::from_str(stage)));
    let c = set_member(b, String::from_str("kind"), Json::Str(String::from_str(kind)));
    let p = Json::Object(c);
    proof {
        assert(member(c@, "jobId"@) == member(b@, "jobId"@));
        assert(member(b@, "jobId"@) == member(a@, "jobId"@));
        assert(member(c@, "stage"@) == member(b@, "stage"@));
        assert forall|k: Seq<char>| k != "jobId"@ && k != "stage"@ && k != "kind"@
            implies #[trigger] member(c@, k) == base_member(incoming, k) by {
            assert(member(c@, k) == member(b@, k));
            assert(member(b@, k) == member(a@, k));
            assert(member(a@, k) == member(members@, k));
        }
    }
    p
}

/// Whether a job at `stage` is still running.
pub open spec fn stage_active(stage: Seq<char>) -> bool {
    stage != "completed"@ && stage != "error"@
}

/// The kinds whose page shows the latest job's result after a window rebuild.
pub open spec fn keeps_latest(kind: Seq<char>) -> bool {
    kind == "transcribe"@ || kind == "align"@
}

pub open spec fn exhausted_message() -> Seq<char> {
    "录音识别任务序号已耗尽"@
}

/// The kept jobs once `kind`'s page moved on to a new job: the page's previous job is
/// released unless it is still running.
pub open spec fn released(
    jobs: Map<Seq<char>, (u64, JobView)>,
    latest: Map<Seq<char>, Seq<char>>,
    kind: Seq<char>,
) -> Map<Seq<char>, (u64, JobView)> {
    if latest.contains_key(kind) && jobs.contains_key(latest[kind]) && !jobs[latest[kind]].1.active {
        jobs.remove(latest[kind])
    } else {
        jobs
    }
}

/// Whether `id` is the latest job of some page.
pub open spec fn is_latest(latest: Map<Seq<char>, Seq<char>>, id: Seq<char>) -> bool {
    exists|k: Seq<char>| #[trigger] latest.contains_key(k) && latest[k] == id
}

/// `id` is a running kept job with the greatest registration number among the running
/// kept jobs.
pub open spec fn newest_running(jobs: Map<Seq<char>, (u64, JobView)>, id: Seq<char>) -> bool {
    &&& jobs.contains_key(id)
    &&& jobs[id].1.active
    &&& forall|k: Seq<char>| #[trigger] jobs.contains_key(k) && jobs[k].1.active ==> jobs[k].0 <= jobs[id].0
}

/// What became of an event's payload.
pub enum EventOutcome {
    /// The job is not registered (never was, or its worker already exited); nothing is
    /// delivered.
    Unknown,
    /// The runtime keeps the job with the payload; [`TranscriptionRuntime::get`] reads it.
    Kept,
    /// The job is not kept; the payload is delivered as it is.
    Delivered(Json),
}

/// The backend projection of recognition jobs: the purpose each job was registered
/// with, in registration order, the running jobs and the latest result of each page.
pub struct TranscriptionRuntime {
    sequence: u64,
    registered: StrMap<(String, u64)>,
    jobs: StrMap<(u64, TranscriptionJobSnapshot)>,
    latest: StrMap<String>,
}

impl TranscriptionRuntime {
    pub closed spec fn wf(&self) -> bool {
        &&& self.registered.wf()
        &&& self.jobs.wf()
        &&& self.latest.wf()
    }

    /// The last registration number handed out.
    pub closed spec fn issued(&self) -> u64 {
        self.sequence
    }

    /// Registered jobs: their kind and registration number.
    pub closed spec fn registrations(&self) -> Map<Seq<char>, (Seq<char>, u64)> {
        self.registered@.map_values(|r: (String, u64)| (r.0@, r.1))
    }

    /// Kept jobs: their registration number and snapshot.
    pub closed spec fn kept_jobs(&self) -> Map<Seq<char>, (u64, JobView)> {
        self.jobs@.map_values(|j: (u64, TranscriptionJobSnapshot)| (j.0, j.1@))
    }

    /// The latest job of each page kind.
    pub closed spec fn latest_results(&self) -> Map<Seq<char>, Seq<char>> {
        self.latest@.map_values(|s: String| s@)
    }

    pub fn new() -> (r: Self)
        ensures
            r.wf(),
            r.issued() == 0,
            r.registrations() == Map::<Seq<char>, (Seq<char>, u64)>::empty(),
            r.kept_jobs() == Map::<Seq<char>, (u64, JobView)>::empty(),
            r.latest_results() == Map::<Seq<char>, Seq<char>>::empty(),
    {
        let r = TranscriptionRuntime { sequence: 0, registered: StrMap::new(), jobs: StrMap::new(), latest: StrMap::new() };
        assert(r.registrations() =~= Map::<Seq<char>, (Seq<char>, u64)>::empty());
        assert(r.kept_jobs() =~= Map::<Seq<char>, (u64, JobView)>::empty());
        assert(r.latest_results() =~= Map::<Seq<char>, Seq<char>>::empty());
        r
    }

    /// Registers job `job_id` before its first event, with its normalised purpose and
    /// the next registration number. A job registered already keeps its purpose. A
    /// new job of a page kind becomes that page's latest job, releasing the previous
    /// one unless it still runs.
    pub fn register(&mut self, job_id: &str, kind: &str) -> (r: Result<(), String>)
        requires
            old(self).wf(),
        ensures
            final(self).wf(),
            old(self).registrations().contains_key(job_id@) ==> r is Ok
                && final(self).issued() == old(self).issued()
                && final(self).registrations() == old(self).registrations()
                && final(self).kept_jobs() == old(self).kept_jobs()
                && final(self).latest_results() == old(self).latest_results(),
            !old(self).registrations().contains_key(job_id@) && old(self).issued() == u64::MAX ==> r is Err
                && r->Err_0@ == exhausted_message()
                && final(self).issued() == old(self).issued()
                && final(self).registrations() == old(self).registrations()
                && final(self).kept_jobs() == old(self).kept_jobs()
                && final(self).latest_results() == old(self).latest_results(),
            !old(self).registrations().contains_key(job_id@) && old(self).issued() < u64::MAX ==> {
                let k = job_kind(kind@);
                let order = (old(self).issued() + 1) as u64;
                &&& r is Ok
                &&& final(self).issued() == order
                &&& final(self).registrations() == old(self).registrations().insert(job_id@, (k, order))
                &&& final(self).latest_results() == (if keeps_latest(k) {
                    old(self).latest_results().insert(k, job_id@)
                } else {
                    old(self).latest_results()
                })
                &&& final(self).kept_jobs() == (if keeps_latest(k) {
                    released(old(self).kept_jobs(), old(self).latest_results(), k)
                } else {
                    old(self).kept_jobs()
                })
            },
    {
        if self.registered.contains_key(job_id) {
            return Ok(());
        }
        if self.sequence == u64::MAX {
            return Err(String::from_str("录音识别任务序号已耗尽"));
        }
        let kind_name = normalize_job_kind(kind);
        self.sequence = self.sequence + 1;
        let order = self.sequence;
        let ghost reg0 = self.registered@;
        self.registered.insert(String::from_str(job_id), (String::from_str(kind_name), order));
        proof {
            assert(self.registered@.map_values(|r: (String, u64)| (r.0@, r.1)) =~= reg0.map_values(
                |r: (String, u64)| (r.0@, r.1),
            ).insert(job_id@, (job_kind(kind@), order)));
        }
        if str_eq(kind_name, "transcribe") || str_eq(kind_name, "align") {
            let ghost latest0 = self.latest@;
            let ghost jobs0 = self.jobs@;
            let previous = self.latest.insert(String::from_str(kind_name), String::from_str(job_id));
            proof {
                assert(self.latest@.map_values(|s: String| s@) =~= latest0.map_values(|s: String| s@).insert(
                    job_kind(kind@),
                    job_id@,
                ));
            }
            match previous {
                Some(prev) => {
                    let inactive = match self.jobs.get(prev.as_str()) {
                        Some(entry) => !entry.1.active,
                        None => false,
                    };
                    if inactive {
                        self.jobs.remove(prev.as_str());
                        proof {
                            assert(self.jobs@.map_values(|j: (u64, TranscriptionJobSnapshot)| (j.0, j.1@)) =~= jobs0.map_values(
                                |j: (u64, TranscriptionJobSnapshot)| (j.0, j.1@),
                            ).remove(prev@));
                        }
                    }
                },
                None => {},
            }
        }
        Ok(())
    }

    /// Applies an event of job `job_id`. An unregistered job changes nothing, so a late
    /// event after the worker exited cannot bring a job back. A running job, or the
    /// latest job of its page, is kept with the event's payload; any other job is
    /// dropped and its payload delivered as it is.
    pub fn apply_event(&mut self, job_id: &str, stage: &str, payload: Json) -> (r: EventOutcome)
        requires
            old(self).wf(),
        ensures
            final(self).wf(),
            final(self).issued() == old(self).issued(),
            final(self).registrations() == old(self).registrations(),
            final(self).latest_results() == old(self).latest_results(),
            !old(self).registrations().contains_key(job_id@) ==> r is Unknown
                && final(self).kept_jobs() == old(self).kept_jobs(),
            old(self).registrations().contains_key(job_id@) ==> {
                let k = old(self).registrations()[job_id@].0;
                let order = old(self).registrations()[job_id@].1;
                let active = stage_active(stage@);
                let recoverable = old(self).latest_results().contains_key(k)
                    && old(self).latest_results()[k] == job_id@;
                if active || recoverable {
                    let job = final(self).kept_jobs()[job_id@].1;
                    &&& r is Kept
                    &&& final(self).kept_jobs() == old(self).kept_jobs().insert(job_id@, (order, job))
                    &&& job.job_id == job_id@
                    &&& job.kind == k
                    &&& job.stage == stage@
                    &&& job.active == active
                    &&& is_event_payload(job.payload, payload, job_id@, stage@, k)
                } else {
                    &&& r matches EventOutcome::Delivered(p) && is_event_payload(p, payload, job_id@, stage@, k)
                    &&& final(self).kept_jobs() == old(self).kept_jobs().remove(job_id@)
                }
            },
    {
        let (kind_name, order) = match self.registered.get(job_id) {
            None => {
                return EventOutcome::Unknown;
            },
            Some(entry) => (entry.0.clone(), entry.1),
        };
        let p = event_payload(payload, job_id, stage, kind_name.as_str());
        let active = !(str_eq(stage, "completed") || str_eq(stage, "error"));
        let recoverable = match self.latest.get(kind_name.as_str()) {
            Some(id) => str_eq(id.as_str(), job_id),
            None => false,
        };
        let ghost jobs0 = self.jobs@;
        if active || recoverable {
            let job = TranscriptionJobSnapshot {
                job_id: String::from_str(job_id),
                kind: kind_name,
                stage: String::from_str(stage),
                active,
                payload: p,
            };
            let ghost jv = job@;
            self.jobs.insert(String::from_str(job_id), (order, job));
            proof {
                assert(self.jobs@.map_values(|j: (u64, TranscriptionJobSnapshot)| (j.0, j.1@)) =~= jobs0.map_values(
                    |j: (u64, TranscriptionJobSnapshot)| (j.0, j.1@),
                ).insert(job_id@, (order, jv)));
            }
            EventOutcome::Kept
        } else {
            self.jobs.remove(job_id);
            proof {
                assert(self.jobs@.map_values(|j: (u64, TranscriptionJobSnapshot)| (j.0, j.1@)) =~= jobs0.map_values(
                    |j: (u64, TranscriptionJobSnapshot)| (j.0, j.1@),
                ).remove(job_id@));
            }
            EventOutcome::Delivered(p)
        }
    }

    /// Called once the job's worker has really exited: the registration goes, and the
    /// kept job too unless it is the latest job of its page.
    pub fn finish(&mut self, job_id: &str)
        requires
            old(self).wf(),
        ensures
            final(self).wf(),
            final(self).issued() == old(self).issued(),
            final(self).registrations() == old(self).registrations().remove(job_id@),
            final(self).latest_results() == old(self).latest_results(),
            final(self).kept_jobs() == (if is_latest(old(self).latest_results(), job_id@) {
                old(self).kept_jobs()
            } else {
                old(self).kept_jobs().remove(job_id@)
            }),
    {
        let ghost reg0 = self.registered@;
        self.registered.remove(job_id);
        proof {
            assert(self.registered@.map_values(|r: (String, u64)| (r.0@, r.1)) =~= reg0.map_values(
                |r: (String, u64)| (r.0@, r.1),
            ).remove(job_id@));
        }
        let latest_job = self.latest.contains_text_value(job_id);
        proof {
            let lv = self.latest_results();
            if latest_job {
                let k = choose|k: Seq<char>| #[trigger] self.latest@.contains_key(k) && self.latest@[k]@ == job_id@;
                assert(lv.contains_key(k) && lv[k] == job_id@);
            } else {
                assert forall|k: Seq<char>| #[trigger] lv.contains_key(k) implies lv[k] != job_id@ by {
                    assert(self.latest@.contains_key(k));
                }
            }
        }
        if !latest_job {
            let ghost jobs0 = self.jobs@;
            self.jobs.remove(job_id);
            proof {
                assert(self.jobs@.map_values(|j: (u64, TranscriptionJobSnapshot)| (j.0, j.1@)) =~= jobs0.map_values(
                    |j: (u64, TranscriptionJobSnapshot)| (j.0, j.1@),
                ).remove(job_id@));
            }
        }
    }

    /// Running when some kept job runs, with the running job registered last as the
    /// session; idle otherwise.
    pub fn domain_snapshot(&self) -> (d: DomainSnapshot)
        requires
            self.wf(),
        ensures
            match d.session_id {
                Some(id) => d.state == DomainRunState::Running && newest_running(self.kept_jobs(), id@),
                None => d.state == DomainRunState::Idle && forall|k: Seq<char>| #[trigger] self.kept_jobs().contains_key(k)
                    ==> !self.kept_jobs()[k].1.active,
            },
    {
        let keys = self.jobs.keys();
        let ghost jm = self.jobs@;
        let mut best: Option<usize> = None;
        let mut best_order: u64 = 0;
        let mut i: usize = 0;
        while i < keys.len()
            invariant
                i <= keys@.len(),
                jm == self.jobs@,
                self.wf(),
                forall|j: int| 0 <= j < keys@.len() ==> jm.contains_key(#[trigger] keys@[j]@),
                match best {
                    Some(b) => b < i && jm[keys@[b as int]@].1.active && jm[keys@[b as int]@].0 == best_order
                        && forall|j: int| 0 <= j < i && #[trigger] jm[keys@[j]@].1.active ==> jm[keys@[j]@].0 <= best_order,
                    None => forall|j: int| 0 <= j < i ==> !(#[trigger] jm[keys@[j]@]).1.active,
                },
            decreases keys@.len() - i,
        {
            match self.jobs.get(keys[i].as_str()) {
                Some(entry) => {
                    if entry.1.active && (best.is_none() || entry.0 >= best_order) {
                        best = Some(i);
                        best_order = entry.0;
                    }
                },
                None => {},
            }
            i += 1;
        }
        let ghost kv = self.kept_jobs();
        match best {
            Some(b) => {
                proof {
                    assert forall|k: Seq<char>| #[trigger] kv.contains_key(k) && kv[k].1.active implies kv[k].0 <= kv[keys@[b as int]@].0 by {
                        let j = choose|j: int| 0 <= j < keys@.len() && keys@[j]@ == k;
                        assert(jm[keys@[j]@].1.active);
                    }
                }
                DomainSnapshot { state: DomainRunState::Running, session_id: Some(keys[b].clone()) }
            },
            None => {
                proof {
                    assert forall|k: Seq<char>| #[trigger] kv.contains_key(k) implies !kv[k].1.active by {
                        let j = choose|j: int| 0 <= j < keys@.len() && keys@[j]@ == k;
                        assert(!jm[keys@[j]@].1.active);
                    }
                }
                DomainSnapshot { state: DomainRunState::Idle, session_id: None }
            },
        }
    }

    /// The kept jobs' ids in registration order, as a rebuilt window recovers them.
    pub fn snapshot_order(&self) -> (r: Vec<String>)
        requires
            self.wf(),
        ensures
            r@.len() == self.kept_jobs().len(),
            forall|i: int| 0 <= i < r@.len() ==> self.kept_jobs().contains_key(#[trigger] r@[i]@),
            forall|k: Seq<char>| #[trigger] self.kept_jobs().contains_key(k) ==> exists|i: int| 0 <= i < r@.len() && r@[i]@ == k,
            forall|i: int, j: int| 0 <= i < j < r@.len() ==> self.kept_jobs()[#[trigger] r@[i]@].0 <= self.kept_jobs()[#[trigger] r@[j]@].0,
    {
        broadcast use vstd::seq_lib::group_to_multiset_ensures;
        let keys = self.jobs.keys();
        let ghost jm = self.jobs@;
        let mut items: Vec<(u64, String)> = Vec::new();
        let mut i: usize = 0;
        while i < keys.len()
            invariant
                i <= keys@.len(),
                jm == self.jobs@,
                self.wf(),
                forall|j: int| 0 <= j < keys@.len() ==> jm.contains_key(#[trigger] keys@[j]@),
                items@.len() == i,
                forall|j: int| 0 <= j < i ==> (#[trigger] items@[j]).1@ == keys@[j]@ && items@[j].0 == jm[keys@[j]@].0,
            decreases keys@.len() - i,
        {
            let order = match self.jobs.get(keys[i].as_str()) {
                Some(entry) => entry.0,
                None => 0,
            };
            items.push((order, keys[i].clone()));
            i += 1;
        }
        let ghost iv = items@;
        let sorted = sort_by_rank(items);
        proof { lemma_ranked_sort(iv); }
        let ghost sv = sorted@;
        proof {
            assert forall|m: int| 0 <= m < sv.len() implies jm.contains_key((#[trigger] sv[m]).1@) && sv[m].0 == jm[sv[m].1@].0 by {
                assert(iv.to_multiset().count(sv[m]) > 0);
                assert(iv.contains(sv[m]));
                let j = choose|j: int| 0 <= j < iv.len() && iv[j] == sv[m];
                assert(iv[j].1@ == keys@[j]@);
            }
        }
        let mut r: Vec<String> = Vec::new();
        let mut rest = sorted;
        let ghost mut n: int = 0;
        while rest.len() > 0
            invariant
                0 <= n <= sv.len(),
                rest@ == sv.skip(n),
                r@.len() == n,
                forall|m: int| 0 <= m < n ==> (#[trigger] r@[m])@ == sv[m].1@,
            decreases rest@.len(),
        {
            let ghost rest0 = rest@;
            let (_, id) = rest.remove(0);
            proof {
                assert(rest0[0] == sv[n]);
                assert(rest@ =~= sv.skip(n + 1));
            }
            r.push(id);
            proof { n = n + 1; }
        }
        let ghost kv = self.kept_jobs();
        proof {
            assert(kv.dom() =~= jm.dom());
            assert forall|k: Seq<char>| #[trigger] kv.contains_key(k) implies exists|m: int| 0 <= m < r@.len() && r@[m]@ == k by {
                let j = choose|j: int| 0 <= j < keys@.len() && keys@[j]@ == k;
                assert(iv[j].1@ == k);
                assert(iv.to_multiset().count(iv[j]) > 0);
                assert(sv.contains(iv[j]));
                let m = choose|m: int| 0 <= m < sv.len() && sv[m] == iv[j];
                assert(r@[m]@ == k);
            }
            assert forall|a: int, b: int| 0 <= a < b < r@.len() implies kv[#[trigger] r@[a]@].0 <= kv[#[trigger] r@[b]@].0 by {
                assert(sv[a].0 <= sv[b].0);
            }
        }
        r
    }

    /// The kept job `job_id`.
    pub fn get(&self, job_id: &str) -> (r: Option<&TranscriptionJobSnapshot>)
        requires
            self.wf(),
        ensures
            match r {
                Some(job) => self.kept_jobs().contains_key(job_id@) && self.kept_jobs()[job_id@].1 == job@,
                None => !self.kept_jobs().contains_key(job_id@),
            },
    {
        match self.jobs.get(job_id) {
            Some(entry) => Some(&entry.1),
            None => None,
        }
    }

    /// Whether job `job_id` is registered.
    pub fn is_registered(&self, job_id: &str) -> (b: bool)
        ensures
            b == self.registrations().contains_key(job_id@),
    {
        self.registered.contains_key(job_id)
    }

    pub fn registration_count(&self) -> (n: usize)
        requires
            self.wf(),
        ensures
            n == self.registrations().len(),
    {
        proof { assert(self.registrations().dom() =~= self.registered@.dom()); }
        self.registered.len()
    }

    pub fn latest_count(&self) -> (n: usize)
        requires
            self.wf(),
        ensures
            n == self.latest_results().len(),
    {
        proof { assert(self.latest_results().dom() =~= self.latest@.dom()); }
        self.latest.len()
    }
}

} // verus!
