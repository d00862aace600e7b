//! Idle heap reclamation: a release notification schedules one delayed reclaim; bursts
//! of notifications share one worker, which waits for the last of them. Times are
//! milliseconds on one monotonic clock.
use vstd::prelude::*;

verus! {

pub const IDLE_DELAY_MS: u64 = 5000;

/// Run state of a background domain as reported to the reclaim decision.
#[derive(Clone, Copy, Debug, PartialEq, Eq, Structural)]
pub enum DomainRunState {
    Idle,
    Running,
    Stopping,
    Failed,
}

/// What a domain reports of itself: its run state and the session in progress.
#[derive(Debug, PartialEq, Eq)]
pub struct DomainSnapshot {
    pub state: DomainRunState,
    pub session_id: Option<String>,
}

#[derive(Debug)]
pub struct Plan {
    pub deadline: Option<u64>,
    pub worker_running: bool,
}

impl Default for Plan {
    fn default() -> (p: Self)
        ensures p.deadline is None, !p.worker_running,
    {
        Plan { deadline: None, worker_running: false }
    }
}

/// The plan after a release notification at `now`: the deadline moves to
/// `now + IDLE_DELAY_MS` and a worker is running.
pub open spec fn after_request(p: Plan, now: u64) -> Plan {
    Plan { deadline: Some((now + IDLE_DELAY_MS) as u64), worker_running: true }
}

/// The plan after notifications at each of `times`, in order.
pub open spec fn requests(p: Plan, times: Seq<u64>) -> Plan
    decreases times.len(),
{
    if times.len() == 0 { p } else { after_request(requests(p, times.drop_last()), times.last()) }
}

/// How many of the notifications at `times` spawn a worker.
pub open spec fn spawns(p: Plan, times: Seq<u64>) -> nat
    decreases times.len(),
{
    if times.len() == 0 {
        0
    } else {
        let before = requests(p, times.drop_last());
        spawns(p, times.drop_last()) + if before.worker_running { 0nat } else { 1nat }
    }
}

/// Whether the reclaim is due at `now`.
pub open spec fn due(p: Plan, now: u64) -> bool {
    p.deadline matches Some(d) && d <= now
}

impl Plan {
    /// Moves the deadline to `now + IDLE_DELAY_MS`; returns whether a worker must be spawned.
    pub fn request(&mut self, now: u64) -> (spawn: bool)
        requires now + IDLE_DELAY_MS <= u64::MAX,
        ensures
            *final(self) == after_request(*old(self), now),
            spawn == !old(self).worker_running,
    {
        self.deadline = Some(now + IDLE_DELAY_MS);
        let spawn = !self.worker_running;
        self.worker_running = true;
        spawn
    }

    /// The worker's next wake-up; without one the worker stops.
    pub fn next_deadline(&mut self) -> (deadline: Option<u64>)
        ensures
            deadline == old(self).deadline,
            final(self).deadline == old(self).deadline,
            final(self).worker_running == (old(self).worker_running && old(self).deadline is Some),
    {
        if self.deadline.is_none() {
            self.worker_running = false;
        }
        self.deadline
    }

    /// Claims the reclaim when its deadline has passed.
    pub fn claim(&mut self, now: u64) -> (claimed: bool)
        ensures
            claimed == due(*old(self), now),
            final(self).deadline == (if claimed { None } else { old(self).deadline }),
            final(self).worker_running == old(self).worker_running,
    {
        let due = match self.deadline {
            Some(deadline) => deadline <= now,
            None => false,
        };
        if due {
            self.deadline = None;
        }
        due
    }
}

/// What the reclaim decision reads of the runtime. `None` stands for a state that could
/// not be read (its lock failed), which never counts as idle.
#[derive(Clone, Copy, Debug)]
pub struct ReclaimSnapshot {
    pub audio_busy: bool,
    pub asr_streams: Option<usize>,
    pub transcriptions: Option<usize>,
    pub dictation: Option<DomainRunState>,
    pub subtitles: Option<DomainRunState>,
    pub compare_settled: bool,
    pub audio_lab_idle: bool,
}

pub open spec fn settled(state: Option<DomainRunState>) -> bool {
    state == Some(DomainRunState::Idle) || state == Some(DomainRunState::Failed)
}

/// The heap is reclaimed only when no audio, recognition, job or session is in flight.
pub fn eligible(state: &ReclaimSnapshot) -> (ok: bool)
    ensures
        ok == (!state.audio_busy && state.asr_streams == Some(0usize)
            && state.transcriptions == Some(0usize) && settled(state.dictation)
            && settled(state.subtitles) && state.compare_settled && state.audio_lab_idle),
{
    let settled_dictation = match state.dictation {
        Some(DomainRunState::Idle) | Some(DomainRunState::Failed) => true,
        _ => false,
    };
    let settled_subtitles = match state.subtitles {
        Some(DomainRunState::Idle) | Some(DomainRunState::Failed) => true,
        _ => false,
    };
    let streams_empty = match state.asr_streams {
        Some(n) => n == 0,
        None => false,
    };
    let jobs_empty = match state.transcriptions {
        Some(n) => n == 0,
        None => false,
    };
    !state.audio_busy && streams_empty && jobs_empty && settled_dictation && settled_subtitles
        && state.compare_settled && state.audio_lab_idle
}

/// Law: for a burst of release notifications at nondecreasing times, from a plan with
/// no worker, only the first notification spawns a worker, one worker keeps running,
/// and the reclaim falls due exactly `IDLE_DELAY_MS` after the last notification.
pub proof fn law_burst_waits_for_last_release(p: Plan, times: Seq<u64>, now: u64)
    requires
        !p.worker_running,
        times.len() > 0,
        forall|i: int| 0 <= i < times.len() ==> times[i] + IDLE_DELAY_MS <= u64::MAX,
    ensures
        spawns(p, times) == 1,
        requests(p, times).worker_running,
        requests(p, times).deadline == Some((times.last() + IDLE_DELAY_MS) as u64),
        due(requests(p, times), now) <==> now >= times.last() + IDLE_DELAY_MS,
    decreases times.len(),
{
    let init = times.drop_last();
    if times.len() > 1 {
        assert forall|i: int| 0 <= i < init.len() implies init[i] + IDLE_DELAY_MS <= u64::MAX by {
            assert(init[i] == times[i]);
        }
        law_burst_waits_for_last_release(p, init, now);
    } else {
        assert(init.len() == 0);
        assert(requests(p, init) == p);
        assert(spawns(p, init) == 0);
    }
}

/// Law: without any release notification no worker runs and nothing is ever reclaimed.
pub proof fn law_no_release_no_reclaim(now: u64)
    ensures
        !due(Plan { deadline: None, worker_running: false }, now),
        !(Plan { deadline: None, worker_running: false }).worker_running,
{
}

} // verus!
