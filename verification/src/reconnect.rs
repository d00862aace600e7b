//! Reconnect budget of a live subtitle session: consecutive failed connections are
//! counted; recognised text, or a connection that stayed up long enough, restores it.
//! Times are milliseconds on one monotonic clock.
use crate::text::{exec_is_blank, is_blank};
use vstd::prelude::*;

verus! {

/// A connection that lived this long counts as recovered even if nothing was said.
pub const STABLE_CONNECTION_MS: u64 = 30000;

#[derive(Debug)]
pub struct Budget {
    pub attempts: u32,
    pub started_at: Option<u64>,
}

impl Default for Budget {
    fn default() -> (b: Self)
        ensures b.attempts == 0, b.started_at is None,
    {
        Budget { attempts: 0, started_at: None }
    }
}

/// Whether a connection started at `started_at` and lost at `now` stayed up long
/// enough to count as recovered.
pub open spec fn stable_until(started_at: Option<u64>, now: u64) -> bool {
    match started_at {
        Some(started) => now >= started && now - started >= STABLE_CONNECTION_MS,
        None => false,
    }
}

/// The budget after a disconnection at `now`: the consecutive count grows by one
/// (saturating), from zero when the connection had been stable.
pub open spec fn after_disconnect(b: Budget, now: u64) -> Budget {
    let base = if stable_until(b.started_at, now) { 0 } else { b.attempts };
    Budget { attempts: if base == u32::MAX { u32::MAX } else { (base + 1) as u32 }, started_at: None }
}

/// The budget after recognised text arrived: any non-blank text resets the count.
pub open spec fn after_text(b: Budget, text: Seq<char>) -> Budget {
    if is_blank(text) { b } else { Budget { attempts: 0, ..b } }
}

impl Budget {
    /// Preparing a session does not prove the service works: the count is kept.
    pub fn started(&mut self, now: u64)
        ensures
            *final(self) == (Budget { started_at: Some(now), ..*old(self) }),
    {
        self.started_at = Some(now);
    }

    pub fn received_text(&mut self, text: &str)
        ensures
            *final(self) == after_text(*old(self), text@),
    {
        if !exec_is_blank(text) {
            self.attempts = 0;
        }
    }

    /// Records one disconnection and returns the consecutive failure count.
    pub fn disconnected(&mut self, now: u64) -> (attempts: u32)
        ensures
            *final(self) == after_disconnect(*old(self), now),
            attempts == final(self).attempts,
    {
        let started = self.started_at.take();
        if let Some(started) = started {
            if now >= started && now - started >= STABLE_CONNECTION_MS {
                self.attempts = 0;
            }
        }
        self.attempts = self.attempts.saturating_add(1);
        self.attempts
    }
}

/// Law: connections that are prepared and then fail before becoming stable keep
/// counting; preparing alone never restores the budget.
pub proof fn law_failing_preparations_keep_counting(b: Budget, started: u64, lost: u64)
    requires
        started <= lost,
        lost - started < STABLE_CONNECTION_MS,
        b.attempts < u32::MAX,
    ensures
        after_disconnect(Budget { started_at: Some(started), ..b }, lost).attempts == b.attempts + 1,
{
}

/// Law: recognised text restores the budget, so the next failure counts as the first;
/// blank text changes nothing.
pub proof fn law_recognized_text_restores_budget(b: Budget, text: Seq<char>, lost: u64)
    ensures
        !is_blank(text) ==> after_disconnect(after_text(b, text), lost).attempts == 1,
        is_blank(text) ==> after_text(b, text) == b,
{
}

/// Law: a connection that stayed up for `STABLE_CONNECTION_MS` counts as recovered even
/// if nothing was said, from the boundary on.
pub proof fn law_stable_connection_restores_budget(b: Budget, started: u64, lost: u64)
    requires
        lost >= started,
        lost - started >= STABLE_CONNECTION_MS,
    ensures
        after_disconnect(Budget { started_at: Some(started), ..b }, lost).attempts == 1,
{
}

} // verus!
