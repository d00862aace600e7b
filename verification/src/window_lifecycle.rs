//! Main window lifecycle: the webview only, never any dictation or subtitle session.
//! `generation` stops an older creation failure from overriding a newer creation.
use vstd::prelude::*;

verus! {

#[derive(Clone, Copy, Debug, PartialEq, Eq, Structural)]
pub enum MainWindowPhase {
    Absent,
    Creating,
    Ready,
    Visible,
    Closing,
}

#[derive(Clone, Copy, Debug, PartialEq, Eq, Structural)]
pub enum EnsureMainWindowAction {
    Create { generation: u64 },
    AwaitReady,
    ShowExisting,
}

#[derive(Debug)]
pub struct MainWindowLifecycle {
    pub phase: MainWindowPhase,
    pub generation: u64,
    pub open_requested: bool,
}

/// The generation counter advances with wrap-around.
pub open spec fn next_generation(generation: u64) -> u64 {
    if generation == u64::MAX { 0 } else { (generation + 1) as u64 }
}

fn bump(generation: u64) -> (next: u64)
    ensures next == next_generation(generation),
{
    if generation == u64::MAX { 0 } else { generation + 1 }
}

impl Default for MainWindowLifecycle {
    fn default() -> (lifecycle: Self)
        ensures
            lifecycle.phase == MainWindowPhase::Absent,
            lifecycle.generation == 0,
            !lifecycle.open_requested,
    {
        MainWindowLifecycle { phase: MainWindowPhase::Absent, generation: 0, open_requested: false }
    }
}

/// The lifecycle after an open request, and the action the caller must take: without
/// a window a new creation starts; while one is being created or closed the caller
/// waits; otherwise the existing window is shown.
pub open spec fn opened(s: MainWindowLifecycle, window_exists: bool) -> (MainWindowLifecycle, EnsureMainWindowAction) {
    if !window_exists {
        let generation = next_generation(s.generation);
        (
            MainWindowLifecycle { phase: MainWindowPhase::Creating, generation, open_requested: true },
            EnsureMainWindowAction::Create { generation },
        )
    } else if s.phase == MainWindowPhase::Creating || s.phase == MainWindowPhase::Closing {
        (MainWindowLifecycle { open_requested: true, ..s }, EnsureMainWindowAction::AwaitReady)
    } else {
        (
            MainWindowLifecycle { phase: MainWindowPhase::Visible, open_requested: true, ..s },
            EnsureMainWindowAction::ShowExisting,
        )
    }
}

/// The lifecycle after the creation numbered `generation` failed: only the failure of
/// the creation that is still current resets the window.
pub open spec fn failed(s: MainWindowLifecycle, generation: u64) -> MainWindowLifecycle {
    if s.phase == MainWindowPhase::Creating && s.generation == generation {
        MainWindowLifecycle { phase: MainWindowPhase::Absent, open_requested: false, ..s }
    } else {
        s
    }
}

/// The lifecycle once the webview reports ready, and whether it must now be shown.
pub open spec fn readied(s: MainWindowLifecycle) -> (MainWindowLifecycle, bool) {
    if s.phase == MainWindowPhase::Creating || s.phase == MainWindowPhase::Ready {
        let phase = if s.open_requested { MainWindowPhase::Visible } else { MainWindowPhase::Ready };
        (MainWindowLifecycle { phase, ..s }, s.open_requested)
    } else {
        (s, s.phase == MainWindowPhase::Visible)
    }
}

/// The lifecycle after the initial window was registered.
pub open spec fn registered(s: MainWindowLifecycle, should_open: bool) -> MainWindowLifecycle {
    MainWindowLifecycle {
        phase: MainWindowPhase::Creating,
        generation: next_generation(s.generation),
        open_requested: should_open,
    }
}

/// The lifecycle moved to `phase` with no open request left.
pub open spec fn settled_in(s: MainWindowLifecycle, phase: MainWindowPhase) -> MainWindowLifecycle {
    MainWindowLifecycle { phase, open_requested: false, ..s }
}

impl MainWindowLifecycle {
    pub fn phase(&self) -> (phase: MainWindowPhase)
        ensures phase == self.phase,
    {
        self.phase
    }

    pub fn register_initial_window(&mut self, should_open: bool)
        ensures
            *final(self) == registered(*old(self), should_open),
    {
        self.phase = MainWindowPhase::Creating;
        self.open_requested = should_open;
        self.generation = bump(self.generation);
    }

    /// See [`opened`].
    pub fn request_open(&mut self, window_exists: bool) -> (action: EnsureMainWindowAction)
        ensures
            (*final(self), action) == opened(*old(self), window_exists),
    {
        self.open_requested = true;
        if !window_exists {
            self.phase = MainWindowPhase::Creating;
            self.generation = bump(self.generation);
            return EnsureMainWindowAction::Create { generation: self.generation };
        }
        match self.phase {
            MainWindowPhase::Creating | MainWindowPhase::Closing => EnsureMainWindowAction::AwaitReady,
            _ => {
                self.phase = MainWindowPhase::Visible;
                EnsureMainWindowAction::ShowExisting
            },
        }
    }

    /// See [`failed`].
    pub fn creation_failed(&mut self, generation: u64)
        ensures
            *final(self) == failed(*old(self), generation),
    {
        if self.phase == MainWindowPhase::Creating && self.generation == generation {
            self.phase = MainWindowPhase::Absent;
            self.open_requested = false;
        }
    }

    /// Returns whether the window should now be shown (see [`readied`]).
    pub fn mark_ready(&mut self) -> (show: bool)
        ensures
            (*final(self), show) == readied(*old(self)),
    {
        match self.phase {
            MainWindowPhase::Creating | MainWindowPhase::Ready => {
                let should_show = self.open_requested;
                self.phase = if should_show { MainWindowPhase::Visible } else { MainWindowPhase::Ready };
                should_show
            },
            MainWindowPhase::Visible => true,
            _ => false,
        }
    }

    pub fn begin_close(&mut self)
        ensures
            *final(self) == settled_in(*old(self), MainWindowPhase::Closing),
    {
        self.phase = MainWindowPhase::Closing;
        self.open_requested = false;
    }

    pub fn close_completed(&mut self)
        ensures
            *final(self) == settled_in(*old(self), MainWindowPhase::Absent),
    {
        self.phase = MainWindowPhase::Absent;
        self.open_requested = false;
    }

    pub fn close_failed_hidden(&mut self)
        ensures
            *final(self) == settled_in(*old(self), MainWindowPhase::Ready),
    {
        self.phase = MainWindowPhase::Ready;
        self.open_requested = false;
    }
}

/// Law: once an open request has started a creation, further open requests wait for it
/// instead of creating a second window, and the window is shown when it becomes ready.
pub proof fn law_open_while_creating_waits(s: MainWindowLifecycle)
    ensures
        ({
            let (s1, a1) = opened(s, false);
            let (s2, a2) = opened(s1, true);
            let (s3, show) = readied(s2);
            &&& a1 == EnsureMainWindowAction::Create { generation: s1.generation }
            &&& a2 == EnsureMainWindowAction::AwaitReady
            &&& s2 == s1
            &&& show
            &&& s3.phase == MainWindowPhase::Visible
        }),
{
}

/// Law: a failure of the current creation makes the window absent and creatable again,
/// while the failure of an older creation cannot undo a newer one.
pub proof fn law_stale_failure_is_ignored(s: MainWindowLifecycle)
    ensures
        ({
            let (s1, a1) = opened(s, false);
            let s2 = failed(s1, s1.generation);
            let (s3, a3) = opened(s2, false);
            &&& s2.phase == MainWindowPhase::Absent
            &&& a3 == EnsureMainWindowAction::Create { generation: next_generation(s1.generation) }
            &&& s3.generation != s1.generation
            &&& failed(s3, s1.generation) == s3
            &&& s3.phase == MainWindowPhase::Creating
        }),
{
}

/// Law: an initial window registered hidden stays ready and hidden until an explicit
/// open request shows it.
pub proof fn law_hidden_initial_window_waits_for_open(s: MainWindowLifecycle)
    ensures
        ({
            let s1 = registered(s, false);
            let (s2, show) = readied(s1);
            let (s3, a3) = opened(s2, true);
            &&& !show
            &&& s2.phase == MainWindowPhase::Ready
            &&& a3 == EnsureMainWindowAction::ShowExisting
            &&& s3.phase == MainWindowPhase::Visible
        }),
{
}

/// Law: closing never starts a creation and never changes the creation counter; after a
/// completed close the window is absent with no open request pending.
pub proof fn law_close_keeps_generation(s: MainWindowLifecycle)
    ensures
        ({
            let s1 = settled_in(s, MainWindowPhase::Closing);
            let s2 = settled_in(s1, MainWindowPhase::Absent);
            &&& s1.generation == s.generation
            &&& s2.generation == s.generation
            &&& s2.phase == MainWindowPhase::Absent
            &&& !s2.open_requested
        }),
{
}

} // verus!
