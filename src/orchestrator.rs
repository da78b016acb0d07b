use vstd::prelude::*;

verus! {

/// How long a burst of file changes must be quiet before a pass runs, in milliseconds.
pub const DEBOUNCE_MS: u64 = 250;

/// Serialises reconciliation passes and collapses bursts of file changes into one pass.
#[derive(Clone, Copy, Debug, PartialEq, Eq, Structural)]
pub struct PassScheduler {
    /// A pass is in flight.
    pub running: bool,
    /// Time of the latest change not yet taken by a pass.
    pub changed_at: Option<u64>,
}

/// A pass may start: none is in flight and the latest change has been quiet for the
/// debounce window.
pub open spec fn pass_due(s: PassScheduler, now: u64) -> bool {
    !s.running && s.changed_at is Some && now >= s.changed_at->Some_0 && now
        - s.changed_at->Some_0 >= DEBOUNCE_MS
}

impl PassScheduler {
    pub fn new() -> (r: Self)
        ensures
            !r.running,
            r.changed_at is None,
    {
        PassScheduler { running: false, changed_at: None }
    }

    /// Notes a change of the project at time `now`; changes made while a pass runs wait
    /// for one further pass.
    pub fn on_change(&mut self, now: u64)
        ensures
            final(self).running == old(self).running,
            final(self).changed_at == Some(now),
    {
        self.changed_at = Some(now);
    }

    /// Starts a pass when one is due, and says whether it did.
    pub fn poll(&mut self, now: u64) -> (r: bool)
        ensures
            r == pass_due(*old(self), now),
            r ==> final(self).running && final(self).changed_at is None,
            !r ==> *final(self) == *old(self),
    {
        if self.running {
            return false;
        }
        match self.changed_at {
            None => false,
            Some(t) => {
                if now >= t && now - t >= DEBOUNCE_MS {
                    self.running = true;
                    self.changed_at = None;
                    true
                } else {
                    false
                }
            },
        }
    }

    /// Notes that the running pass has ended.
    pub fn finish(&mut self)
        ensures
            !final(self).running,
            final(self).changed_at == old(self).changed_at,
    {
        self.running = false;
    }
}

/// What an execution pass asks for next.
#[derive(Clone, Copy, Debug, PartialEq, Eq, Structural)]
pub enum PassStep {
    /// Apply the change at this position of the plan.
    Apply(usize),
    /// Every change applied: persist the new infrastructure map.
    Persist,
    /// A change failed: stop, and keep the stored map as it is.
    Halt,
    /// Nothing is left to do.
    Done,
}

/// Progress through one ordered plan.
#[derive(Clone, Copy, Debug, PartialEq, Eq, Structural)]
pub struct ExecutionPass {
    pub total: usize,
    pub applied: usize,
    pub failed: bool,
    pub persisted: bool,
}

pub open spec fn next_step(p: ExecutionPass) -> PassStep {
    if p.failed {
        PassStep::Halt
    } else if p.applied < p.total {
        PassStep::Apply(p.applied)
    } else if !p.persisted {
        PassStep::Persist
    } else {
        PassStep::Done
    }
}

impl ExecutionPass {
    pub open spec fn wf(&self) -> bool {
        &&& self.applied <= self.total
        &&& self.persisted ==> self.applied == self.total && !self.failed
    }

    pub fn new(total: usize) -> (r: Self)
        ensures
            r.wf(),
            r.total == total,
            r.applied == 0,
            !r.failed,
            !r.persisted,
    {
        ExecutionPass { total, applied: 0, failed: false, persisted: false }
    }

    /// The next step: changes strictly in plan order, persistence only after all of them
    /// succeeded, and nothing more after a failure.
    pub fn next(&self) -> (r: PassStep)
        requires
            self.wf(),
        ensures
            r == next_step(*self),
            r == PassStep::Persist ==> self.applied == self.total && !self.failed,
    {
        if self.failed {
            PassStep::Halt
        } else if self.applied < self.total {
            PassStep::Apply(self.applied)
        } else if !self.persisted {
            PassStep::Persist
        } else {
            PassStep::Done
        }
    }

    /// Records the outcome of the change asked for by `next`.
    pub fn record_applied(&mut self, ok: bool)
        requires
            old(self).wf(),
            next_step(*old(self)) is Apply,
        ensures
            final(self).wf(),
            final(self).total == old(self).total,
            final(self).persisted == old(self).persisted,
            ok ==> final(self).applied == old(self).applied + 1 && !final(self).failed,
            !ok ==> final(self).applied == old(self).applied && final(self).failed,
    {
        if ok {
            self.applied = self.applied + 1;
        } else {
            self.failed = true;
        }
    }

    /// Records that the new map was stored.
    pub fn record_persisted(&mut self)
        requires
            old(self).wf(),
            next_step(*old(self)) == PassStep::Persist,
        ensures
            final(self).wf(),
            final(self).persisted,
            final(self).applied == old(self).applied,
            final(self).total == old(self).total,
            !final(self).failed,
    {
        self.persisted = true;
    }
}

/// The phases of development mode.
#[derive(Clone, Copy, Debug, PartialEq, Eq, Structural)]
pub enum Phase {
    Initializing,
    Loading,
    Introspecting,
    Planning,
    Executing,
    Serving,
    Reconciling,
    Terminating,
}

/// What happens to development mode.
#[derive(Clone, Copy, Debug, PartialEq, Eq, Structural)]
pub enum Event {
    /// The current startup step completed.
    StepDone,
    /// A startup step failed.
    StepFailed,
    /// The project files changed.
    ProjectChanged,
    /// A reconciliation pass ended well.
    PassSucceeded,
    /// A reconciliation pass failed; the server keeps running.
    PassFailed,
    /// Termination was requested from outside.
    Terminate,
}

pub open spec fn transition(p: Phase, e: Event) -> Phase {
    match (p, e) {
        (_, Event::Terminate) => Phase::Terminating,
        (Phase::Terminating, _) => Phase::Terminating,
        (Phase::Initializing, Event::StepDone) => Phase::Loading,
        (Phase::Loading, Event::StepDone) => Phase::Introspecting,
        (Phase::Introspecting, Event::StepDone) => Phase::Planning,
        (Phase::Planning, Event::StepDone) => Phase::Executing,
        (Phase::Executing, Event::StepDone) => Phase::Serving,
        (Phase::Serving, Event::ProjectChanged) => Phase::Reconciling,
        (Phase::Reconciling, Event::PassSucceeded) => Phase::Serving,
        (Phase::Reconciling, Event::PassFailed) => Phase::Serving,
        (Phase::Serving, _) => Phase::Serving,
        (Phase::Reconciling, _) => Phase::Reconciling,
        (_, Event::StepFailed) => Phase::Terminating,
        (q, _) => q,
    }
}

/// The phase that follows an event: startup walks to serving one step at a time, a
/// change of the project runs one pass and returns to serving whatever its outcome,
/// a failed startup step or a request to terminate ends in terminating.
pub fn next_phase(p: Phase, e: Event) -> (r: Phase)
    ensures
        r == transition(p, e),
{
    match (p, e) {
        (_, Event::Terminate) => Phase::Terminating,
        (Phase::Terminating, _) => Phase::Terminating,
        (Phase::Initializing, Event::StepDone) => Phase::Loading,
        (Phase::Loading, Event::StepDone) => Phase::Introspecting,
        (Phase::Introspecting, Event::StepDone) => Phase::Planning,
        (Phase::Planning, Event::StepDone) => Phase::Executing,
        (Phase::Executing, Event::StepDone) => Phase::Serving,
        (Phase::Serving, Event::ProjectChanged) => Phase::Reconciling,
        (Phase::Reconciling, Event::PassSucceeded) => Phase::Serving,
        (Phase::Reconciling, Event::PassFailed) => Phase::Serving,
        (Phase::Serving, _) => Phase::Serving,
        (Phase::Reconciling, _) => Phase::Reconciling,
        (_, Event::StepFailed) => Phase::Terminating,
        (q, _) => q,
    }
}

/// Deadline of a database call when none is configured, in milliseconds.
pub const OLAP_TIMEOUT_MS: u64 = 30000;

/// Deadline of a broker call when none is configured, in milliseconds.
pub const BUS_TIMEOUT_MS: u64 = 15000;

/// Time a child is given to exit before it is killed, when none is configured, in milliseconds.
pub const CHILD_GRACE_MS: u64 = 5000;

/// Deadlines of external calls.
#[derive(Clone, Copy, Debug, PartialEq, Eq, Structural)]
pub struct Timeouts {
    pub olap_ms: u64,
    pub bus_ms: u64,
    pub child_grace_ms: u64,
}

pub open spec fn or_default(configured: Option<u64>, default: u64) -> u64 {
    match configured {
        Some(v) => v,
        None => default,
    }
}

impl Timeouts {
    /// The configured deadlines, with the defaults for those not configured.
    pub fn resolve(olap_ms: Option<u64>, bus_ms: Option<u64>, child_grace_ms: Option<u64>) -> (r: Self)
        ensures
            r.olap_ms == or_default(olap_ms, OLAP_TIMEOUT_MS),
            r.bus_ms == or_default(bus_ms, BUS_TIMEOUT_MS),
            r.child_grace_ms == or_default(child_grace_ms, CHILD_GRACE_MS),
    {
        Timeouts {
            olap_ms: match olap_ms {
                Some(v) => v,
                None => OLAP_TIMEOUT_MS,
            },
            bus_ms: match bus_ms {
                Some(v) => v,
                None => BUS_TIMEOUT_MS,
            },
            child_grace_ms: match child_grace_ms {
                Some(v) => v,
                None => CHILD_GRACE_MS,
            },
        }
    }
}

/// Switches of a run.
#[derive(Clone, Copy, Debug, PartialEq, Eq, Structural)]
pub struct Features {
    /// Plan-based execution instead of the direct path.
    pub core_v2: bool,
    /// Aggregations live in `blocks/` instead of `aggregations/`.
    pub blocks: bool,
}

pub const AGGREGATIONS_DIR: &'static str = "aggregations";

pub const BLOCKS_DIR: &'static str = "blocks";

/// The directory, under `app/`, that holds the aggregations.
pub fn aggregations_dir_name(features: Features) -> (r: &'static str)
    ensures
        features.blocks ==> r@ == BLOCKS_DIR@,
        !features.blocks ==> r@ == AGGREGATIONS_DIR@,
{
    if features.blocks {
        BLOCKS_DIR
    } else {
        AGGREGATIONS_DIR
    }
}

} // verus!
