//! The process supervisor's state machine: at most one engine instance,
//! idempotent starts, self-healing after a silent exit, and stops that
//! always clear the slot and never fail.

use vstd::prelude::*;

verus! {

/// What a start request decides: the engine is already running and nothing
/// is spawned, or a spawn should go ahead.
#[derive(Clone, Copy, PartialEq, Eq, Structural, Debug)]
pub enum StartDecision {
    AlreadyRunning,
    SpawnEngine,
}

/// What a stop request decides: terminate the live engine, or nothing to
/// do. Neither outcome is an error.
#[derive(Clone, Copy, PartialEq, Eq, Structural, Debug)]
pub enum StopDecision {
    TerminateEngine,
    AlreadyStopped,
}

/// Tracks the zero-or-one live engine instance. The surrounding application
/// owns the real child process and the lock around this state; it reports
/// probe results (non-blocking wait outcomes) in and carries the decisions
/// out, so every transition of the single supervisor slot is decided here.
#[derive(Clone, Copy, PartialEq, Eq, Structural, Debug)]
pub struct Supervisor {
    pub running: bool,
}

pub open spec fn spec_start_state(s: Supervisor, probe_exited: bool) -> Supervisor {
    if s.running && !probe_exited {
        s
    } else {
        Supervisor { running: false }
    }
}

pub open spec fn spec_start_decision(s: Supervisor, probe_exited: bool) -> StartDecision {
    if s.running && !probe_exited {
        StartDecision::AlreadyRunning
    } else {
        StartDecision::SpawnEngine
    }
}

pub open spec fn spec_stop_state(s: Supervisor) -> Supervisor {
    Supervisor { running: false }
}

pub open spec fn spec_stop_decision(s: Supervisor) -> StopDecision {
    if s.running {
        StopDecision::TerminateEngine
    } else {
        StopDecision::AlreadyStopped
    }
}

impl Supervisor {
    pub fn new() -> (s: Self)
        ensures
            !s.running,
    {
        Supervisor { running: false }
    }

    /// Begin a start request. `probe_exited` is what a non-blocking wait on
    /// the live process reported (pass false when no process is live): a
    /// live slot whose process already exited is cleaned up first, so the
    /// state self-heals before the decision falls.
    pub fn begin_start(&mut self, probe_exited: bool) -> (r: StartDecision)
        ensures
            r == spec_start_decision(*old(self), probe_exited),
            *final(self) == spec_start_state(*old(self), probe_exited),
            (r == StartDecision::AlreadyRunning) <==> (old(self).running && !probe_exited),
            r == StartDecision::AlreadyRunning ==> *final(self) == *old(self),
            r == StartDecision::SpawnEngine ==> !final(self).running,
    {
        if self.running && !probe_exited {
            StartDecision::AlreadyRunning
        } else {
            self.running = false;
            StartDecision::SpawnEngine
        }
    }

    /// Take the slot for the spawn a `SpawnEngine` decision asked for:
    /// until a stop clears it, further start requests report the engine as
    /// already running, so at most one spawn is ever in flight.
    pub fn spawn_succeeded(&mut self)
        requires
            !old(self).running,
        ensures
            final(self).running,
    {
        self.running = true;
    }

    /// A stop request. A terminate decision is carried out unconditionally
    /// and the slot is cleared regardless of whether the kill succeeds, so
    /// an unkillable process can never leak the supervisor slot.
    pub fn stop(&mut self) -> (r: StopDecision)
        ensures
            r == spec_stop_decision(*old(self)),
            *final(self) == spec_stop_state(*old(self)),
            !final(self).running,
            (r == StopDecision::TerminateEngine) <==> old(self).running,
            !old(self).running ==> *final(self) == *old(self),
    {
        let r = if self.running {
            StopDecision::TerminateEngine
        } else {
            StopDecision::AlreadyStopped
        };
        self.running = false;
        r
    }

    /// Whether a live process remains, self-healing the slot as a start
    /// request would when the probe says the process has exited.
    pub fn is_running(&mut self, probe_exited: bool) -> (r: bool)
        ensures
            r == (old(self).running && !probe_exited),
            final(self).running == r,
    {
        if self.running && probe_exited {
            self.running = false;
        }
        self.running
    }
}

/// While the engine runs and its process has not exited, a start request is
/// an idempotent no-op: it reports the engine as already running, reaches no
/// spawn, and leaves the state exactly as it was — so any number of repeated
/// start requests spawn nothing and each reports the same way.
pub proof fn lemma_repeated_start_is_noop(s: Supervisor)
    requires
        s.running,
    ensures
        spec_start_decision(s, false) == StartDecision::AlreadyRunning,
        spec_start_state(s, false) == s,
{
}

/// A stop request in the stopped state is a no-op that still succeeds: no
/// terminate is issued, the state is unchanged, and no error exists to
/// return.
pub proof fn lemma_stop_when_stopped_is_noop(s: Supervisor)
    requires
        !s.running,
    ensures
        spec_stop_decision(s) == StopDecision::AlreadyStopped,
        spec_stop_state(s) == s,
{
}

} // verus!
