//! The live subtitle session as the rest of the application sees it: its phase, who
//! owns the shared indicator window, what a snapshot shows, and how translation results
//! of this session (and not of an earlier one) reach the translation document.
use vstd::prelude::*;
use crate::idle_reclaim::{DomainRunState, DomainSnapshot};
use crate::subtitle_preview::{translation_enabled, translation_on};
use crate::subtitles::{
    after_commit, after_partial, byte_len, dispatch_offset, dispatch_texts, fresh_seqs, group_views, referenced, SubtitleDocument,
    TranslationDocument,
};
use crate::translation_queue::{keep_visible, Queue};
use crate::text::{chars_of, concat_strs, concat_all, string_of};

verus! {

/// Phase of the subtitle session.
#[derive(Clone, Copy, Debug, PartialEq, Eq, Structural)]
pub enum SubtitlePhase {
    Idle,
    WaitingForVoice,
    Running,
    Reconnecting,
    Stopping,
    Failed,
}

/// Whether live subtitles hold the shared indicator window: a preview is open, or a
/// session is not idle. A session whose state cannot be read holds nothing.
pub fn owns_indicator(preview_active: bool, phase: Option<SubtitlePhase>) -> (b: bool)
    ensures
        b == (preview_active || (phase matches Some(p) && p != SubtitlePhase::Idle)),
{
    preview_active || match phase {
        Some(p) => p != SubtitlePhase::Idle,
        None => false,
    }
}

/// Whether the subtitle bar should be on screen: a preview is open, or a session is
/// running and its output is not routed to OBS.
pub fn wants_indicator_visible(preview_active: bool, session: Option<(SubtitlePhase, bool)>) -> (b: bool)
    ensures
        b == (preview_active || (session matches Some((p, obs)) && p != SubtitlePhase::Idle && !obs)),
{
    preview_active || match session {
        Some((p, obs)) => p != SubtitlePhase::Idle && !obs,
        None => false,
    }
}

/// The domain run state of a session phase.
pub open spec fn domain_state(phase: SubtitlePhase) -> DomainRunState {
    match phase {
        SubtitlePhase::Idle => DomainRunState::Idle,
        SubtitlePhase::Stopping => DomainRunState::Stopping,
        SubtitlePhase::Failed => DomainRunState::Failed,
        _ => DomainRunState::Running,
    }
}

/// What the session reports as a domain.
pub fn domain_snapshot(phase: SubtitlePhase, session_id: Option<String>) -> (s: DomainSnapshot)
    ensures
        s.state == domain_state(phase),
        s.session_id == session_id,
{
    DomainSnapshot {
        state: match phase {
            SubtitlePhase::Idle => DomainRunState::Idle,
            SubtitlePhase::Stopping => DomainRunState::Stopping,
            SubtitlePhase::Failed => DomainRunState::Failed,
            _ => DomainRunState::Running,
        },
        session_id,
    }
}

/// The state of a subtitle session that the decisions read and change. `J` is the
/// work a queued translation carries.
pub struct SubtitleSession<J> {
    pub epoch: u64,
    pub public_id: Option<String>,
    pub phase: SubtitlePhase,
    pub asr_session_id: Option<String>,
    pub mode: String,
    pub line_count: u32,
    pub translation_model: String,
    pub document: SubtitleDocument,
    pub translation: TranslationDocument,
    pub translation_jobs: Queue<J>,
    pub obs_active: bool,
    pub translation_error: Option<String>,
    pub error: Option<String>,
    /// When voice was last heard, in milliseconds of a monotonic clock.
    pub last_voice_at: Option<u64>,
    /// Whether a recognition stream is being opened.
    pub opening: bool,
    /// Whether silence closes the recognition stream, and after how long.
    pub silence_disconnect_enabled: bool,
    pub silence_disconnect_ms: u64,
    /// Consecutive reconnections since a stream was last opened.
    pub reconnect_attempts: u32,
    /// Since when the OBS overlay has been seen disconnected, in milliseconds of a
    /// monotonic clock.
    pub obs_disconnected_at: Option<u64>,
}

/// After this many consecutive reconnections the session fails.
pub const MAX_RECONNECT_ATTEMPTS: u32 = 6;
/// How long the OBS output survives a disconnected overlay.
pub const OBS_GRACE_MS: u64 = 2000;

/// What to do about reconnection attempt `attempt`.
#[derive(Clone, Copy, Debug, PartialEq, Eq, Structural)]
pub enum ReconnectPlan {
    GiveUp,
    /// Retry after this many milliseconds.
    RetryAfter(u64),
}

/// Attempts beyond `MAX_RECONNECT_ATTEMPTS` give up; otherwise the retry waits 300 ms
/// per attempt, at most 2 s.
pub fn reconnect_plan(attempt: u32) -> (p: ReconnectPlan)
    ensures
        attempt > MAX_RECONNECT_ATTEMPTS ==> p == ReconnectPlan::GiveUp,
        attempt <= MAX_RECONNECT_ATTEMPTS ==> p == ReconnectPlan::RetryAfter(
            if 300 * attempt <= 2000 { (300 * attempt) as u64 } else { 2000 },
        ),
{
    if attempt > MAX_RECONNECT_ATTEMPTS {
        ReconnectPlan::GiveUp
    } else {
        let delay = 300 * (attempt as u64);
        ReconnectPlan::RetryAfter(if delay <= 2000 { delay } else { 2000 })
    }
}

/// The two indicator lines: the source alone without translation, the translation alone
/// in the translation-only layout, otherwise both.
pub fn indicator_texts(source: String, translation: String, translation_model: &str, layout: &str) -> (r: (String, String))
    ensures
        !translation_on(translation_model@) ==> r.0 == source && r.1@.len() == 0,
        translation_on(translation_model@) && layout@ == "translationOnly"@ ==> r.0 == translation && r.1@.len() == 0,
        translation_on(translation_model@) && layout@ != "translationOnly"@ ==> r.0 == source && r.1 == translation,
{
    if !translation_enabled(translation_model) {
        (source, String::new())
    } else if crate::text::str_eq(layout, "translationOnly") {
        (translation, String::new())
    } else {
        (source, translation)
    }
}

/// What a recognition event led to.
pub struct AsrOutcome {
    /// Whether the event belongs to the session's open stream.
    pub handled: bool,
    pub epoch: u64,
    /// Clauses to translate, numbered.
    pub translate: Vec<(u64, String)>,
    /// The reconnection attempt to schedule.
    pub reconnect: Option<u32>,
    /// Running translation requests to cancel.
    pub cancel: Vec<u64>,
}

/// Whether an event kind ends the recognition stream.
pub open spec fn stream_ended(kind: Seq<char>) -> bool {
    kind == "ended"@ || kind == "closed"@ || kind == "error"@
}

/// What the audio consumer does after a packet.
#[derive(Clone, Copy, Debug, PartialEq, Eq, Structural)]
pub enum LevelAction {
    /// The session is gone or no longer live: stop consuming.
    Stop,
    Nothing,
    /// Voice while no stream is open: open one.
    Open,
    /// Silence for long enough while a stream is open: close it.
    Close,
}

/// Whether the session still takes audio.
pub open spec fn live(phase: SubtitlePhase) -> bool {
    phase != SubtitlePhase::Idle && phase != SubtitlePhase::Stopping && phase != SubtitlePhase::Failed
}

/// The failure reported when audio capture ends on its own.
pub open spec fn capture_stopped_message() -> Seq<char> {
    "音频采集已意外停止"@
}

/// What the subtitle window and the rest of the application are told.
#[derive(Debug)]
pub struct SubtitleSnapshot {
    pub phase: SubtitlePhase,
    pub preview_active: bool,
    pub session_id: Option<String>,
    pub original_text: String,
    pub translation_text: String,
    pub obs_output_active: bool,
    pub error: Option<String>,
    pub translation_error: Option<String>,
}

pub open spec fn accepts_results(phase: SubtitlePhase) -> bool {
    phase != SubtitlePhase::Idle && phase != SubtitlePhase::Stopping
}

/// The prefix of a translation failure.
pub open spec fn translation_failure(error: Seq<char>) -> Seq<char> {
    "字幕翻译失败："@ + error
}

fn clone_opt(s: &Option<String>) -> (r: Option<String>)
    ensures
        r == *s,
{
    match s {
        Some(v) => Some(v.clone()),
        None => None,
    }
}

impl<J> SubtitleSession<J> {
    pub open spec fn wf(&self) -> bool {
        self.translation.wf() && self.translation_jobs.wf()
    }

    /// A fresh, idle session.
    pub fn new() -> (s: Self)
        ensures
            s.wf(),
            s.phase == SubtitlePhase::Idle,
            s.epoch == 0,
    {
        SubtitleSession {
            epoch: 0,
            public_id: None,
            phase: SubtitlePhase::Idle,
            asr_session_id: None,
            mode: String::from_str("replace"),
            line_count: 1,
            translation_model: String::from_str("none"),
            document: SubtitleDocument::new(),
            translation: TranslationDocument::new(),
            translation_jobs: Queue::new(),
            obs_active: false,
            translation_error: None,
            error: None,
            last_voice_at: None,
            opening: false,
            silence_disconnect_enabled: true,
            silence_disconnect_ms: 5000,
            reconnect_attempts: 0,
            obs_disconnected_at: None,
        }
    }

    /// Whether a scheduled reconnection of session `epoch` is still wanted.
    pub fn reconnect_due(&self, epoch: u64) -> (b: bool)
        ensures
            b == (self.epoch == epoch && self.phase == SubtitlePhase::Reconnecting),
    {
        self.epoch == epoch && self.phase == SubtitlePhase::Reconnecting
    }

    /// Updates whether subtitles go to OBS, given whether OBS output is enabled and the
    /// overlay is connected: an active output survives a disconnection for
    /// `OBS_GRACE_MS`. Returns whether the output was active before.
    pub fn update_obs_output(&mut self, enabled: bool, connected: bool, now_ms: u64) -> (was_active: bool)
        ensures
            was_active == old(self).obs_active,
            !enabled ==> !final(self).obs_active && final(self).obs_disconnected_at is None,
            enabled && connected ==> final(self).obs_active && final(self).obs_disconnected_at is None,
            enabled && !connected && old(self).obs_active ==> {
                let since = match old(self).obs_disconnected_at { Some(at) => at, None => now_ms };
                &&& final(self).obs_disconnected_at == Some(since)
                &&& final(self).obs_active == !(now_ms >= since && now_ms - since >= OBS_GRACE_MS)
            },
            enabled && !connected && !old(self).obs_active ==> !final(self).obs_active
                && final(self).obs_disconnected_at == old(self).obs_disconnected_at,
            *final(self) == (SubtitleSession {
                obs_active: final(self).obs_active,
                obs_disconnected_at: final(self).obs_disconnected_at,
                ..*old(self)
            }),
    {
        let was_active = self.obs_active;
        let active = if !enabled {
            self.obs_disconnected_at = None;
            false
        } else if connected {
            self.obs_disconnected_at = None;
            true
        } else if self.obs_active {
            let since = match self.obs_disconnected_at {
                Some(at) => at,
                None => now_ms,
            };
            self.obs_disconnected_at = Some(since);
            !(now_ms >= since && now_ms - since >= OBS_GRACE_MS)
        } else {
            false
        };
        self.obs_active = active;
        was_active
    }

    /// The OBS monitor's check: the output must be re-rendered when the overlay came
    /// back, or when it has been gone for `OBS_GRACE_MS` while the output is active.
    pub fn obs_needs_render(&mut self, connected: bool, now_ms: u64) -> (b: bool)
        ensures
            connected && !old(self).obs_active ==> b && *final(self) == *old(self),
            !connected && old(self).obs_active ==> {
                let since = match old(self).obs_disconnected_at { Some(at) => at, None => now_ms };
                &&& b == (now_ms >= since && now_ms - since >= OBS_GRACE_MS)
                &&& *final(self) == (SubtitleSession { obs_disconnected_at: Some(since), ..*old(self) })
            },
            connected == old(self).obs_active ==> !b && *final(self) == *old(self),
    {
        if connected && !self.obs_active {
            return true;
        }
        if !connected && self.obs_active {
            let since = match self.obs_disconnected_at {
                Some(at) => at,
                None => now_ms,
            };
            self.obs_disconnected_at = Some(since);
            return now_ms >= since && now_ms - since >= OBS_GRACE_MS;
        }
        false
    }

    /// A stream opened for session `epoch` is adopted when the session still wants
    /// one: the session runs and its reconnection count starts over. Otherwise the
    /// caller stops the stream.
    pub fn asr_opened(&mut self, epoch: u64, stream: String) -> (adopted: bool)
        ensures
            adopted == (old(self).epoch == epoch && (old(self).phase == SubtitlePhase::Running
                || old(self).phase == SubtitlePhase::WaitingForVoice || old(self).phase == SubtitlePhase::Reconnecting)
                && old(self).asr_session_id is None),
            !adopted ==> *final(self) == *old(self),
            adopted ==> *final(self) == (SubtitleSession {
                asr_session_id: Some(stream),
                phase: SubtitlePhase::Running,
                reconnect_attempts: 0,
                ..*old(self)
            }),
    {
        if !self.wants_asr(epoch) {
            return false;
        }
        self.asr_session_id = Some(stream);
        self.phase = SubtitlePhase::Running;
        self.reconnect_attempts = 0;
        true
    }

    /// Applies an event of recognition stream `stream`. Events of any other stream
    /// change nothing. A result updates the source document (committing it when final)
    /// and, with translation on, hands out its clauses for translation; the end of the
    /// stream either waits for voice again or schedules a reconnection. Afterwards the
    /// translations no longer shown are cancelled.
    pub fn handle_asr_event(&mut self, stream: &str, kind: &str, text: Option<&str>, final_result: bool, now_ms: u64)
        -> (r: AsrOutcome)
        requires
            old(self).wf(),
            old(self).reconnect_attempts < u32::MAX,
            text matches Some(t) ==> byte_len(t@) <= usize::MAX && old(self).translation.next_seq + dispatch_texts(
                old(self).translation.partial_offset as nat,
                t@,
                final_result,
            ).len() <= u64::MAX,
        ensures
            final(self).wf(),
            r.handled == (old(self).asr_session_id matches Some(id) && id@ == stream@),
            !r.handled ==> *final(self) == *old(self) && r.translate@.len() == 0 && r.reconnect is None && r.cancel@.len() == 0,
            r.handled ==> {
                let on = translation_on(old(self).translation_model@);
                let visible = if on { final(self).translation.values@.dom() } else { Set::<u64>::empty() };
                &&& r.epoch == old(self).epoch
                &&& final(self).epoch == old(self).epoch
                &&& final(self).mode == old(self).mode
                &&& final(self).translation_model == old(self).translation_model
                &&& !on ==> final(self).translation.values@.dom().subset_of(final(self).translation.completed@)
                &&& r.cancel@ == old(self).translation_jobs.active_view().filter(|s: u64| !visible.contains(s))
                &&& final(self).translation_jobs.active_view() == old(self).translation_jobs.active_view()
                &&& final(self).translation_jobs.pending_view() == keep_in(old(self).translation_jobs.pending_view(), visible)
            },
            r.handled && kind@ == "result"@ && text is Some ==> {
                let t = text->0@;
                let replace = old(self).mode@ == "replace"@;
                let d = after_partial(old(self).document@, t, replace, now_ms);
                let clauses = dispatch_texts(old(self).translation.partial_offset as nat, t, final_result);
                let on = translation_on(old(self).translation_model@);
                &&& final(self).document@ == (if final_result { after_commit(d, replace, now_ms) } else { d })
                &&& r.translate@.len() == (if on { clauses.len() } else { 0 })
                &&& forall|i: int| 0 <= i < r.translate@.len() ==> {
                    &&& (#[trigger] r.translate@[i]).0 == old(self).translation.next_seq + i + 1
                    &&& r.translate@[i].1@ == clauses[i]
                }
                &&& on ==> final(self).translation.next_seq == old(self).translation.next_seq + clauses.len()
                &&& on && final_result ==> final(self).translation.partial_offset == 0
                &&& on && !final_result ==> final(self).translation.partial_offset == dispatch_offset(
                    old(self).translation.partial_offset as nat,
                    t,
                    final_result,
                )
                &&& on && !final_result ==> {
                    let tr0 = old(self).translation;
                    let tr = final(self).translation;
                    let fresh = fresh_seqs(tr0.next_seq, clauses.len());
                    &&& tr.current_group@ == tr0.current_group@ + fresh
                    &&& tr.committed_groups == tr0.committed_groups
                    &&& tr.replace_groups == tr0.replace_groups
                    &&& tr.completed == tr0.completed
                    &&& tr.values@.dom() == tr0.values@.dom() + fresh.to_set()
                    &&& forall|k: u64| #[trigger] tr0.values@.contains_key(k) ==> tr.values@[k] == tr0.values@[k]
                    &&& forall|i: int| 0 <= i < fresh.len() ==> (#[trigger] tr.values@[fresh[i]])@ == Seq::<char>::empty()
                }
                &&& on && final_result ==> final(self).translation.current_group@.len() == 0
                &&& r.reconnect is None
                &&& final(self).phase == old(self).phase
                &&& final(self).asr_session_id == old(self).asr_session_id
                &&& final(self).reconnect_attempts == old(self).reconnect_attempts
            },
            r.handled && stream_ended(kind@) ==> {
                &&& final(self).asr_session_id is None
                &&& final(self).document == old(self).document
                &&& final(self).translation.partial_offset == 0
                &&& r.translate@.len() == 0
                &&& if old(self).silence_disconnect_enabled {
                    &&& final(self).phase == SubtitlePhase::WaitingForVoice
                    &&& final(self).reconnect_attempts == old(self).reconnect_attempts
                    &&& r.reconnect is None
                } else {
                    &&& final(self).phase == SubtitlePhase::Reconnecting
                    &&& final(self).reconnect_attempts == old(self).reconnect_attempts + 1
                    &&& r.reconnect == Some((old(self).reconnect_attempts + 1) as u32)
                }
            },
            r.handled && !(kind@ == "result"@ && text is Some) && !stream_ended(kind@) ==> {
                &&& final(self).document == old(self).document
                &&& final(self).phase == old(self).phase
                &&& final(self).asr_session_id == old(self).asr_session_id
                &&& final(self).reconnect_attempts == old(self).reconnect_attempts
                &&& r.translate@.len() == 0
                &&& r.reconnect is None
            },
    {
        let current = match &self.asr_session_id {
            Some(id) => crate::text::str_eq(id.as_str(), stream),
            None => false,
        };
        if !current {
            return AsrOutcome { handled: false, epoch: self.epoch, translate: Vec::new(), reconnect: None, cancel: Vec::new() };
        }
        let epoch = self.epoch;
        let mut translate: Vec<(u64, String)> = Vec::new();
        let mut reconnect: Option<u32> = None;
        proof {
            reveal_strlit("result");
            reveal_strlit("ended");
            reveal_strlit("closed");
            reveal_strlit("error");
            assert("result"@[0] != "ended"@[0] && "result"@[0] != "closed"@[0] && "result"@[0] != "error"@[0]);
        }
        let is_result = crate::text::str_eq(kind, "result");
        let ended = crate::text::str_eq(kind, "ended") || crate::text::str_eq(kind, "closed")
            || crate::text::str_eq(kind, "error");
        if is_result && text.is_some() {
            let t = text.unwrap();
            let mode = self.mode.clone();
            self.document.on_partial(String::from_str(t), mode.as_str(), now_ms);
            if translation_enabled(self.translation_model.as_str()) {
                let ghost tr0 = self.translation;
                translate = self.translation.dispatch(t, final_result);
                proof {
                    let fresh = fresh_seqs(tr0.next_seq, translate@.len());
                    assert forall|i: int| 0 <= i < fresh.len() implies (#[trigger] self.translation.values@[fresh[i]])@
                        == Seq::<char>::empty() by {
                        assert(fresh[i] == translate@[i].0);
                    }
                }
            }
            if final_result {
                let continuing = self.document.replace_continuing;
                self.document.commit(mode.as_str(), now_ms);
                self.translation.commit(mode.as_str(), continuing);
            }
        } else if ended {
            self.asr_session_id = None;
            self.translation.reset_partial();
            if self.silence_disconnect_enabled {
                self.phase = SubtitlePhase::WaitingForVoice;
            } else {
                self.reconnect_attempts = self.reconnect_attempts + 1;
                self.phase = SubtitlePhase::Reconnecting;
                reconnect = Some(self.reconnect_attempts);
            }
        }
        let cancel = self.cancel_obsolete_translations();
        AsrOutcome { handled: true, epoch, translate, reconnect, cancel }
    }

    /// Decides what a packet of audio of session `epoch` leads to, `voiced` telling
    /// whether its level exceeds the silence threshold. Voice is remembered and opens a
    /// stream when none is open or opening; silence since the last voice of at least
    /// `silence_disconnect_ms` closes the open stream.
    pub fn on_audio_level(&mut self, epoch: u64, voiced: bool, now_ms: u64) -> (a: LevelAction)
        ensures
            old(self).epoch != epoch || !live(old(self).phase) ==> a == LevelAction::Stop && *final(self) == *old(self),
            old(self).epoch == epoch && live(old(self).phase) && !old(self).silence_disconnect_enabled
                ==> a == LevelAction::Nothing && *final(self) == *old(self),
            old(self).epoch == epoch && live(old(self).phase) && old(self).silence_disconnect_enabled && voiced ==> {
                let open = old(self).asr_session_id is None && !old(self).opening;
                &&& a == (if open { LevelAction::Open } else { LevelAction::Nothing })
                &&& *final(self) == (SubtitleSession {
                    last_voice_at: Some(now_ms),
                    opening: old(self).opening || open,
                    ..*old(self)
                })
            },
            old(self).epoch == epoch && live(old(self).phase) && old(self).silence_disconnect_enabled && !voiced ==> {
                let close = old(self).asr_session_id is Some && match old(self).last_voice_at {
                    Some(at) => now_ms >= at && now_ms - at >= old(self).silence_disconnect_ms,
                    None => false,
                };
                &&& a == (if close { LevelAction::Close } else { LevelAction::Nothing })
                &&& *final(self) == *old(self)
            },
    {
        if self.epoch != epoch || self.phase == SubtitlePhase::Idle || self.phase == SubtitlePhase::Stopping
            || self.phase == SubtitlePhase::Failed {
            return LevelAction::Stop;
        }
        if !self.silence_disconnect_enabled {
            return LevelAction::Nothing;
        }
        if voiced {
            self.last_voice_at = Some(now_ms);
            let open = self.asr_session_id.is_none() && !self.opening;
            if open {
                self.opening = true;
                LevelAction::Open
            } else {
                LevelAction::Nothing
            }
        } else {
            let close = self.asr_session_id.is_some() && match self.last_voice_at {
                Some(at) => now_ms >= at && now_ms - at >= self.silence_disconnect_ms,
                None => false,
            };
            if close { LevelAction::Close } else { LevelAction::Nothing }
        }
    }

    /// The failure to report when the audio consumer of session `epoch` stops: none
    /// once the session ended or was replaced; otherwise the queue's error, else the
    /// capture's error, else that capture stopped unexpectedly.
    pub fn consumer_end_error(&self, epoch: u64, queue_error: Option<String>, capture_error: Option<String>) -> (r: Option<String>)
        ensures
            !(self.epoch == epoch && live(self.phase)) ==> r is None,
            self.epoch == epoch && live(self.phase) ==> r is Some && r->0@ == (match queue_error {
                Some(e) => e@,
                None => match capture_error {
                    Some(e) => e@,
                    None => capture_stopped_message(),
                },
            }),
    {
        if self.epoch != epoch || self.phase == SubtitlePhase::Idle || self.phase == SubtitlePhase::Stopping
            || self.phase == SubtitlePhase::Failed {
            return None;
        }
        match queue_error {
            Some(e) => Some(e),
            None => match capture_error {
                Some(e) => Some(e),
                None => Some(String::from_str("音频采集已意外停止")),
            },
        }
    }

    /// The stream opening for session `epoch` has ended, whatever its outcome.
    pub fn opening_done(&mut self, epoch: u64)
        ensures
            *final(self) == (if old(self).epoch == epoch { SubtitleSession { opening: false, ..*old(self) } } else { *old(self) }),
    {
        if self.epoch == epoch {
            self.opening = false;
        }
    }

    /// Closes the stream of session `epoch` after silence: the session waits for voice
    /// again and the translation cursor starts over. Returns the stream to stop.
    pub fn disconnect_for_silence(&mut self, epoch: u64) -> (stream: Option<String>)
        requires
            old(self).wf(),
        ensures
            final(self).wf(),
            old(self).epoch != epoch ==> stream is None && *final(self) == *old(self),
            old(self).epoch == epoch ==> {
                &&& stream == old(self).asr_session_id
                &&& final(self).asr_session_id is None
                &&& final(self).phase == SubtitlePhase::WaitingForVoice
                &&& final(self).last_voice_at is None
                &&& final(self).translation.partial_offset == 0
                &&& final(self).translation == (TranslationDocument { partial_offset: 0, ..old(self).translation })
                &&& final(self).epoch == old(self).epoch
                &&& final(self).document == old(self).document
                &&& final(self).translation_jobs == old(self).translation_jobs
                &&& final(self).opening == old(self).opening
            },
    {
        if self.epoch != epoch {
            return None;
        }
        self.phase = SubtitlePhase::WaitingForVoice;
        self.last_voice_at = None;
        self.translation.reset_partial();
        self.asr_session_id.take()
    }

    /// Whether session `epoch` should open a recognition stream now: it is still the
    /// current session, it is live, and no stream is open.
    pub fn wants_asr(&self, epoch: u64) -> (b: bool)
        ensures
            b == (self.epoch == epoch && (self.phase == SubtitlePhase::Running || self.phase == SubtitlePhase::WaitingForVoice
                || self.phase == SubtitlePhase::Reconnecting) && self.asr_session_id is None),
    {
        self.epoch == epoch && (self.phase == SubtitlePhase::Running || self.phase == SubtitlePhase::WaitingForVoice
            || self.phase == SubtitlePhase::Reconnecting) && self.asr_session_id.is_none()
    }

    /// What the session shows right now.
    pub fn snapshot(&self, preview_active: bool) -> (s: SubtitleSnapshot)
        ensures
            s.phase == self.phase,
            s.preview_active == preview_active,
            s.session_id == self.public_id,
            s.original_text@ == crate::subtitles::source_display(
                crate::subtitles::strs(self.document.committed@),
                self.document.current@,
                self.document.replace_line@,
                self.mode@ == "replace"@,
                self.line_count as nat,
            ),
            s.translation_text@ == crate::subtitles::translation_display(
                group_views(self.translation.committed_groups@),
                group_views(self.translation.replace_groups@),
                self.translation.current_group@,
                self.translation.values@,
                self.mode@ == "replace"@,
                self.line_count as nat,
            ),
            s.obs_output_active == self.obs_active,
            s.error == self.error,
            s.translation_error == self.translation_error,
    {
        SubtitleSnapshot {
            phase: self.phase,
            preview_active,
            session_id: clone_opt(&self.public_id),
            original_text: self.document.display(self.mode.as_str(), self.line_count),
            translation_text: self.translation.display(self.mode.as_str(), self.line_count),
            obs_output_active: self.obs_active,
            error: clone_opt(&self.error),
            translation_error: clone_opt(&self.translation_error),
        }
    }

    /// Applies a streamed translation of clause `seq` of session `epoch`: results of
    /// another session, or while the session is idle or stopping, are ignored; a
    /// completed result finishes the clause.
    pub fn apply_translation(&mut self, epoch: u64, seq: u64, text: &str, done: bool) -> (accepted: bool)
        requires
            old(self).wf(),
        ensures
            final(self).wf(),
            (old(self).epoch != epoch || !accepts_results(old(self).phase)) ==> !accepted && final(self).translation
                == old(self).translation,
            (old(self).epoch == epoch && accepts_results(old(self).phase)) ==> accepted == (
            old(self).translation.values@.contains_key(seq) && !old(self).translation.completed@.contains(seq)),
            accepted && !done ==> final(self).translation.values@[seq]@ == crate::subtitles::keep_last(
                text@,
                crate::subtitles::STABLE_TAIL_CHARS as nat,
            ),
            final(self).epoch == old(self).epoch,
            final(self).phase == old(self).phase,
            final(self).translation_model == old(self).translation_model,
            final(self).translation_jobs == old(self).translation_jobs,
            final(self).translation_error == old(self).translation_error,
    {
        if self.epoch != epoch || self.phase == SubtitlePhase::Idle || self.phase == SubtitlePhase::Stopping {
            return false;
        }
        let accepted = self.translation.update(seq, text);
        if accepted && done {
            self.translation.finish(seq);
        }
        accepted
    }

    /// The clauses of the translation document, in group order.
    fn referenced_seqs(&self) -> (all: Vec<u64>)
        ensures
            all@.to_set() == referenced(
                self.translation.current_group@,
                group_views(self.translation.committed_groups@),
                group_views(self.translation.replace_groups@),
            ),
    {
        let t = &self.translation;
        let ghost cm = group_views(t.committed_groups@);
        let ghost rg = group_views(t.replace_groups@);
        let mut all: Vec<u64> = Vec::new();
        let mut q: usize = 0;
        while q < t.current_group.len()
            invariant
                q <= t.current_group@.len(),
                all@ == t.current_group@.take(q as int),
            decreases t.current_group@.len() - q,
        {
            all.push(t.current_group[q]);
            proof { assert(all@ =~= t.current_group@.take(q + 1)); }
            q += 1;
        }
        proof { assert(t.current_group@.take(q as int) =~= t.current_group@); }
        let mut gi: usize = 0;
        while gi < t.committed_groups.len()
            invariant
                gi <= t.committed_groups@.len(),
                cm == group_views(t.committed_groups@),
                all@ == t.current_group@ + crate::subtitles::concat_groups(cm.take(gi as int)),
            decreases t.committed_groups@.len() - gi,
        {
            let ghost base = all@;
            let mut e: usize = 0;
            while e < t.committed_groups[gi].len()
                invariant
                    gi < t.committed_groups@.len(),
                    e <= t.committed_groups@[gi as int]@.len(),
                    all@ == base + t.committed_groups@[gi as int]@.take(e as int),
                decreases t.committed_groups@[gi as int]@.len() - e,
            {
                all.push(t.committed_groups[gi][e]);
                proof { assert(all@ =~= base + t.committed_groups@[gi as int]@.take(e + 1)); }
                e += 1;
            }
            proof {
                assert(cm.take(gi + 1).drop_last() =~= cm.take(gi as int));
                assert(t.committed_groups@[gi as int]@.take(e as int) =~= cm[gi as int]);
                assert(all@ =~= t.current_group@ + crate::subtitles::concat_groups(cm.take(gi + 1)));
            }
            gi += 1;
        }
        proof { assert(cm.take(gi as int) =~= cm); }
        let mut ri: usize = 0;
        while ri < t.replace_groups.len()
            invariant
                ri <= t.replace_groups@.len(),
                rg == group_views(t.replace_groups@),
                all@ == t.current_group@ + crate::subtitles::concat_groups(cm) + crate::subtitles::concat_groups(
                    rg.take(ri as int),
                ),
            decreases t.replace_groups@.len() - ri,
        {
            let ghost base = all@;
            let mut e: usize = 0;
            while e < t.replace_groups[ri].len()
                invariant
                    ri < t.replace_groups@.len(),
                    e <= t.replace_groups@[ri as int]@.len(),
                    all@ == base + t.replace_groups@[ri as int]@.take(e as int),
                decreases t.replace_groups@[ri as int]@.len() - e,
            {
                all.push(t.replace_groups[ri][e]);
                proof { assert(all@ =~= base + t.replace_groups@[ri as int]@.take(e + 1)); }
                e += 1;
            }
            proof {
                assert(rg.take(ri + 1).drop_last() =~= rg.take(ri as int));
                assert(t.replace_groups@[ri as int]@.take(e as int) =~= rg[ri as int]);
                assert(all@ =~= t.current_group@ + crate::subtitles::concat_groups(cm) + crate::subtitles::concat_groups(
                    rg.take(ri + 1),
                ));
            }
            ri += 1;
        }
        proof {
            assert(rg.take(ri as int) =~= rg);
            crate::subtitles::lemma_referenced_concat(t.current_group@, cm, rg);
        }
        all
    }

    /// After a translation event: when translation was switched off, every pending
    /// clause counts as completed (its requests were cancelled and will not finish) and
    /// the document is pruned; queued work is kept only for clauses that still have a
    /// translation slot and only while translation is on. Returns the running clauses
    /// whose work must be cancelled.
    pub fn cancel_obsolete_translations(&mut self) -> (cancel: Vec<u64>)
        requires
            old(self).wf(),
        ensures
            final(self).wf(),
            !translation_on(old(self).translation_model@) ==> final(self).translation.values@.dom().subset_of(
                final(self).translation.completed@,
            ),
            translation_on(old(self).translation_model@) ==> final(self).translation == old(self).translation,
            ({
                let visible = if translation_on(old(self).translation_model@) {
                    old(self).translation.values@.dom()
                } else {
                    Set::<u64>::empty()
                };
                &&& final(self).translation_jobs.pending_view() == keep_in(old(self).translation_jobs.pending_view(), visible)
                &&& final(self).translation_jobs.active_view() == old(self).translation_jobs.active_view()
                &&& cancel@ == old(self).translation_jobs.active_view().filter(|s: u64| !visible.contains(s))
            }),
            *final(self) == (SubtitleSession {
                translation: final(self).translation,
                translation_jobs: final(self).translation_jobs,
                ..*old(self)
            }),
            final(self).translation.partial_offset == old(self).translation.partial_offset,
            final(self).translation.next_seq == old(self).translation.next_seq,
    {
        let ghost before = *self;
        let enabled = translation_enabled(self.translation_model.as_str());
        let ghost dom0 = self.translation.values@.dom();
        if !enabled {
            let all = self.referenced_seqs();
            let ghost c0 = self.translation.completed@;
            let ghost t0 = self.translation.values@;
            let ghost cg0 = self.translation.current_group@;
            let ghost cm0 = self.translation.committed_groups@;
            let ghost rg0 = self.translation.replace_groups@;
            let ghost ns0 = self.translation.next_seq;
            let ghost jobs0 = self.translation_jobs;
            let ghost e0 = self.epoch;
            let ghost ph0 = self.phase;
            let ghost tm0 = self.translation_model;
            let ghost te0 = self.translation_error;
            proof {
                assert(all@.to_set() == dom0);
                assert(c0.subset_of(dom0));
            }
            let mut i: usize = 0;
            while i < all.len()
                invariant
                    i <= all@.len(),
                    all@.to_set() == dom0,
                    c0.subset_of(dom0),
                    dom0 == t0.dom(),
                    self.translation.values@ == t0,
                    self.translation.current_group@ == cg0,
                    self.translation.committed_groups@ == cm0,
                    self.translation.replace_groups@ == rg0,
                    self.translation.next_seq == ns0,
                    dom0 == referenced(cg0, group_views(cm0), group_views(rg0)),
                    forall|k: u64| #[trigger] t0.contains_key(k) ==> k <= ns0,
                    self.translation_jobs.wf(),
                    self.translation_jobs == jobs0,
                    self.epoch == e0,
                    self.phase == ph0,
                    self.translation_model == tm0,
                    self.translation_error == te0,
                    *self == (SubtitleSession { translation: self.translation, ..before }),
                    self.translation.partial_offset == before.translation.partial_offset,
                    self.translation.completed@ == c0 + all@.take(i as int).to_set(),
                decreases all@.len() - i,
            {
                let k = all[i];
                self.translation.completed.insert(k);
                proof {
                    assert(all@.take(i + 1) =~= all@.take(i as int).push(k));
                    assert(all@.take(i + 1).to_set() =~= all@.take(i as int).to_set().insert(k)) by {
                        assert forall|x: u64| all@.take(i + 1).to_set().contains(x) <==> all@.take(i as int).to_set().insert(k).contains(x) by {
                            let t = all@.take(i as int);
                            if t.push(k).contains(x) {
                                let j = choose|j: int| 0 <= j < t.push(k).len() && t.push(k)[j] == x;
                                if j < t.len() {
                                    assert(t[j] == x);
                                }
                            }
                            if t.contains(x) {
                                let j = choose|j: int| 0 <= j < t.len() && t[j] == x;
                                assert(t.push(k)[j] == x);
                            }
                            if x == k {
                                assert(t.push(k)[t.len() as int] == x);
                            }
                        }
                    }
                    assert(self.translation.completed@ =~= c0 + all@.take(i + 1).to_set());
                }
                i += 1;
            }
            proof {
                assert(all@.take(i as int) =~= all@);
                assert(self.translation.completed@ =~= c0 + dom0);
                assert(self.translation.completed@.subset_of(self.translation.values@.dom()));
            }
            self.translation.prune_completed();
            proof {
                assert(self.translation.values@.dom().subset_of(self.translation.completed@));
            }
        }
        let visible: Vec<u64> = if enabled { self.referenced_seqs() } else { Vec::new() };
        proof {
            let vs = if enabled { dom0 } else { Set::<u64>::empty() };
            assert(visible@.to_set() =~= vs);
            lemma_keep_visible_in(self.translation_jobs.pending_view(), visible@);
            assert forall|x: u64| visible@.contains(x) <==> vs.contains(x) by {
                if visible@.contains(x) {
                    assert(visible@.to_set().contains(x));
                }
                if vs.contains(x) {
                    assert(visible@.to_set().contains(x));
                }
            }
            let f1 = |s: u64| !visible@.contains(s);
            let f2 = |s: u64| !vs.contains(s);
            assert(f1 =~= f2);
            assert(self.translation_jobs.active_view().filter(f1) == self.translation_jobs.active_view().filter(f2));
        }
        self.translation_jobs.retain(visible.as_slice())
    }

    /// Records a translation event for clause `seq` of session `epoch`. Events of
    /// another session, while idle or stopping, for a clause without a slot or already
    /// completed change nothing and return `false`. A failure is reported (and finishes
    /// the clause when the request is done) without touching the text; a success clears
    /// the failure and applies the text. Either way obsolete work is then cancelled;
    /// the clauses whose running work must stop are returned.
    pub fn record_translation(&mut self, epoch: u64, seq: u64, text: &str, done: bool, error: Option<&str>) -> (r: (
        bool,
        Vec<u64>,
    ))
        requires
            old(self).wf(),
        ensures
            final(self).wf(),
            r.0 == (old(self).epoch == epoch && accepts_results(old(self).phase) && old(self).translation.values@.contains_key(
                seq,
            ) && !old(self).translation.completed@.contains(seq)),
            !r.0 ==> *final(self) == *old(self) && r.1@.len() == 0,
            r.0 && error is Some ==> (final(self).translation_error matches Some(m) && m@ == translation_failure(
                error->0@,
            )),
            r.0 && error is None ==> final(self).translation_error is None,
            final(self).epoch == old(self).epoch,
            final(self).phase == old(self).phase,
    {
        if self.epoch != epoch || self.phase == SubtitlePhase::Idle || self.phase == SubtitlePhase::Stopping
            || !self.translation.values.contains_key(&seq) || self.translation.completed.contains(&seq) {
            return (false, Vec::new());
        }
        match error {
            Some(e) => {
                let parts = ["字幕翻译失败：", e];
                let message = concat_strs(&parts);
                proof {
                    reveal_with_fuel(concat_all, 3);
                    assert(parts@.map_values(|p: &str| p@) =~= seq!["字幕翻译失败："@, e@]);
                }
                self.translation_error = Some(message);
                if done {
                    self.translation.finish(seq);
                }
            },
            None => {
                self.translation_error = None;
                self.apply_translation(epoch, seq, text, done);
            },
        }
        let cancel = self.cancel_obsolete_translations();
        (true, cancel)
    }
}

/// Waiting work whose clause is in `visible`, in order.
pub open spec fn keep_in<J>(p: Seq<crate::translation_queue::Pending<J>>, visible: Set<u64>) -> Seq<crate::translation_queue::Pending<J>>
    decreases p.len(),
{
    if p.len() == 0 {
        p
    } else if visible.contains(p.last().seq) {
        keep_in(p.drop_last(), visible).push(p.last())
    } else {
        keep_in(p.drop_last(), visible)
    }
}

pub proof fn lemma_keep_visible_in<J>(p: Seq<crate::translation_queue::Pending<J>>, visible: Seq<u64>)
    ensures
        keep_visible(p, visible) == keep_in(p, visible.to_set()),
    decreases p.len(),
{
    if p.len() > 0 {
        lemma_keep_visible_in(p.drop_last(), visible);
        assert(visible.contains(p.last().seq) == visible.to_set().contains(p.last().seq));
    }
}

/// Where live subtitles take their audio from.
#[derive(Clone, Copy, Debug, PartialEq, Eq, Structural)]
pub enum SourceKind {
    Mic,
    System,
}

/// The capture source a `kind:device` preference names: `system` captures the system
/// audio, anything else the microphone; the device is named unless it is blank or
/// `default`. Without a colon the preference means the default microphone.
pub open spec fn source_of(pref: Seq<char>) -> (SourceKind, Option<Seq<char>>) {
    match crate::text::find(pref, seq![':']) {
        None => (SourceKind::Mic, None),
        Some(i) => {
            let kind = pref.take(i);
            let device = pref.skip(i + 1);
            (
                if kind == "system"@ { SourceKind::System } else { SourceKind::Mic },
                if device != "default"@ && !crate::text::is_blank(device) { Some(device) } else { None },
            )
        },
    }
}

pub fn capture_source(pref: &str) -> (r: (SourceKind, Option<String>))
    ensures
        r.0 == source_of(pref@).0,
        match source_of(pref@).1 {
            Some(d) => r.1 matches Some(s) && s@ == d,
            None => r.1 is None,
        },
{
    let chars = crate::text::chars_of(pref);
    let colon = vec![':'];
    proof {
        assert(colon@ =~= seq![':']);
        crate::text::lemma_find_from(chars@, colon@, 0);
    }
    match crate::text::find_chars(chars.as_slice(), colon.as_slice(), 0) {
        None => (SourceKind::Mic, None),
        Some(i) => {
            let n = chars.len();
            let kind = crate::text::string_of(crate::text::slice_to_vec(chars.as_slice(), 0, i).as_slice());
            let device = crate::text::string_of(crate::text::slice_to_vec(chars.as_slice(), i + 1, n).as_slice());
            proof {
                assert(kind@ =~= pref@.take(i as int));
                assert(device@ =~= pref@.skip(i + 1));
            }
            let k = if crate::text::str_eq(kind.as_str(), "system") { SourceKind::System } else { SourceKind::Mic };
            let d = if !crate::text::str_eq(device.as_str(), "default") && !crate::text::exec_is_blank(device.as_str()) {
                Some(device)
            } else {
                None
            };
            (k, d)
        },
    }
}

} // verus!
