//! When an idle proxy shuts itself down.

use vstd::prelude::*;

verus! {

/// Milliseconds without routes after which the proxy shuts down.
pub const IDLE_SHUTDOWN_DELAY_MS: u64 = 5_000;

/// Milliseconds after the start during which the proxy does not shut
/// down, so that a first application can register.
pub const IDLE_GRACE_MS: u64 = 10_000;

/// Milliseconds between two reads of the registry.
pub const ROUTE_RELOAD_INTERVAL_MS: u64 = 100;

/// Where the watcher stands.
#[derive(Debug, Clone, Copy, PartialEq, Eq, Structural)]
pub enum Phase {
    /// The grace period after the start runs.
    Grace,
    /// There are routes, or were when last heard of.
    Watching,
    /// There are no routes and the deadline runs.
    Armed,
    /// The deadline passed without routes: the proxy is to exit.
    Stopped,
}

/// What the watcher is told.
#[derive(Debug, Clone, Copy, PartialEq, Eq, Structural)]
pub enum WatchEvent {
    /// The grace period is over.
    GraceOver,
    /// The registry was read; the flag says whether it holds a route whose
    /// process runs.
    Routes(bool),
    /// The deadline passed.
    Deadline,
}

/// What the watcher asks for.
#[derive(Debug, Clone, Copy, PartialEq, Eq, Structural)]
pub enum WatchAction {
    /// Nothing.
    Nothing,
    /// Start the deadline, the shutdown delay from now.
    Arm,
    /// Drop the deadline.
    Disarm,
    /// Exit with code 0.
    Shutdown,
}

/// The watcher's state: its phase and whether there were routes when last
/// heard of.
#[derive(Debug, Clone, Copy, PartialEq, Eq, Structural)]
pub struct IdleWatcher {
    pub phase: Phase,
    pub has_routes: bool,
}

/// The state and the action that follow when `event` comes in at `w`.
pub open spec fn watch_step(w: IdleWatcher, event: WatchEvent) -> (IdleWatcher, WatchAction) {
    match event {
        WatchEvent::GraceOver => if w.phase != Phase::Grace {
            (w, WatchAction::Nothing)
        } else if w.has_routes {
            (IdleWatcher { phase: Phase::Watching, has_routes: true }, WatchAction::Nothing)
        } else {
            (IdleWatcher { phase: Phase::Armed, has_routes: false }, WatchAction::Arm)
        },
        WatchEvent::Routes(present) => if w.phase == Phase::Watching && !present {
            (IdleWatcher { phase: Phase::Armed, has_routes: false }, WatchAction::Arm)
        } else if w.phase == Phase::Armed && present {
            (IdleWatcher { phase: Phase::Watching, has_routes: true }, WatchAction::Disarm)
        } else {
            (IdleWatcher { phase: w.phase, has_routes: present }, WatchAction::Nothing)
        },
        WatchEvent::Deadline => if w.phase == Phase::Armed {
            (IdleWatcher { phase: Phase::Stopped, has_routes: w.has_routes }, WatchAction::Shutdown)
        } else {
            (w, WatchAction::Nothing)
        },
    }
}

impl IdleWatcher {
    /// Whether the state is one that the watcher can be in: the deadline
    /// runs only while there are no routes, and routes are watched only
    /// while there are some.
    pub open spec fn wf(&self) -> bool {
        &&& self.phase == Phase::Armed ==> !self.has_routes
        &&& self.phase == Phase::Watching ==> self.has_routes
    }

    /// The watcher of a proxy that has just started: until the registry is
    /// read, it takes it that there are routes.
    pub fn new() -> (w: IdleWatcher)
        ensures
            w == (IdleWatcher { phase: Phase::Grace, has_routes: true }),
            w.wf(),
    {
        IdleWatcher { phase: Phase::Grace, has_routes: true }
    }

    /// Takes in `event` and says what to do.
    pub fn step(&mut self, event: WatchEvent) -> (action: WatchAction)
        ensures
            (*final(self), action) == watch_step(*old(self), event),
            old(self).wf() ==> final(self).wf(),
    {
        match event {
            WatchEvent::GraceOver => {
                if self.phase != Phase::Grace {
                    WatchAction::Nothing
                } else if self.has_routes {
                    self.phase = Phase::Watching;
                    WatchAction::Nothing
                } else {
                    self.phase = Phase::Armed;
                    WatchAction::Arm
                }
            },
            WatchEvent::Routes(present) => {
                if self.phase == Phase::Watching && !present {
                    self.phase = Phase::Armed;
                    self.has_routes = false;
                    WatchAction::Arm
                } else if self.phase == Phase::Armed && present {
                    self.phase = Phase::Watching;
                    self.has_routes = true;
                    WatchAction::Disarm
                } else {
                    self.has_routes = present;
                    WatchAction::Nothing
                }
            },
            WatchEvent::Deadline => {
                if self.phase == Phase::Armed {
                    self.phase = Phase::Stopped;
                    WatchAction::Shutdown
                } else {
                    WatchAction::Nothing
                }
            },
        }
    }
}

/// The state after the events of `events` came in at `w`, one after the
/// other.
pub open spec fn watch_run(w: IdleWatcher, events: Seq<WatchEvent>) -> IdleWatcher
    decreases events.len(),
{
    if events.len() == 0 {
        w
    } else {
        watch_step(watch_run(w, events.drop_last()), events.last()).0
    }
}

/// Whatever comes in, the proxy shuts down only when the deadline passes
/// while it runs, the deadline runs only while no routes are known, and it
/// never runs during the grace period.
pub proof fn lemma_shutdown_only_when_idle(events: Seq<WatchEvent>, event: WatchEvent)
    ensures
        watch_run(IdleWatcher { phase: Phase::Grace, has_routes: true }, events).wf(),
        watch_step(
            watch_run(IdleWatcher { phase: Phase::Grace, has_routes: true }, events),
            event,
        ).1 == WatchAction::Shutdown ==> {
            &&& event == WatchEvent::Deadline
            &&& !watch_run(IdleWatcher { phase: Phase::Grace, has_routes: true }, events).has_routes
            &&& exists|i: int| 0 <= i < events.len() && events[i] == WatchEvent::GraceOver
        },
    decreases events.len(),
{
    let start = IdleWatcher { phase: Phase::Grace, has_routes: true };
    lemma_run_keeps_grace(events);
    lemma_run_wf(events);
    let w = watch_run(start, events);
    if watch_step(w, event).1 == WatchAction::Shutdown {
        assert(w.phase == Phase::Armed);
        if !exists|i: int| 0 <= i < events.len() && events[i] == WatchEvent::GraceOver {
            assert(forall|i: int| 0 <= i < events.len() ==> events[i] != WatchEvent::GraceOver);
        }
    }
}

/// Every state that is reached from the start is one that the watcher can
/// be in.
pub proof fn lemma_run_wf(events: Seq<WatchEvent>)
    ensures
        watch_run(IdleWatcher { phase: Phase::Grace, has_routes: true }, events).wf(),
    decreases events.len(),
{
    if events.len() > 0 {
        lemma_run_wf(events.drop_last());
    }
}

/// Until it is told that the grace period is over, the watcher stays in
/// it.
pub proof fn lemma_run_keeps_grace(events: Seq<WatchEvent>)
    ensures
        (forall|i: int| 0 <= i < events.len() ==> events[i] != WatchEvent::GraceOver) ==> watch_run(
            IdleWatcher { phase: Phase::Grace, has_routes: true },
            events,
        ).phase == Phase::Grace,
    decreases events.len(),
{
    if events.len() > 0 {
        lemma_run_keeps_grace(events.drop_last());
        if forall|i: int| 0 <= i < events.len() ==> events[i] != WatchEvent::GraceOver {
            assert forall|i: int| 0 <= i < events.drop_last().len() implies events.drop_last()[i]
                != WatchEvent::GraceOver by {
                assert(events.drop_last()[i] == events[i]);
            }
            assert(events.last() == events[events.len() - 1]);
        }
    }
}

} // verus!
