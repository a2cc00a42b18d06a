//! The two-phase barrier of queue-local lanes: all lanes pause, then all are
//! taken to one time and report their windows.

use vstd::prelude::*;
use vstd::string::*;

use crate::agent::error::AgentError;
use crate::agent::lanes::{check_lanes, lanes_fault, latest_of, watermark, BarrierStage};

verus! {

/// Where a barrier stands.
#[derive(Debug, Clone, Copy, PartialEq, Eq, Structural)]
pub enum BarrierPhase {
    /// The last barrier: every lane drains its queue.
    Draining,
    /// Every lane pauses between two batches.
    Pausing,
    /// All lanes pause; the schedule of snapshots is being asked.
    Asking { watermark: Option<u64> },
    /// Every lane reports its windows.
    Reporting { include_current: bool },
    /// The reports are being merged and published.
    Publishing,
    /// The last barrier: the workers are being joined.
    Joining,
    Finished,
}

/// What comes of an action.
#[derive(Debug)]
pub enum BarrierEvent {
    /// The lanes that have answered.
    Heard(Vec<u64>),
    /// The lanes that have paused, and the latest time that each has seen.
    Paused(Vec<u64>, Vec<Option<u64>>),
    /// Whether snapshots are due.
    Due(bool),
    Done,
    /// A worker had panicked.
    Panicked,
}

/// What to do next.
#[derive(Debug)]
pub enum BarrierAction {
    /// Wait until every lane has drained its queue.
    GatherDrained,
    /// Have every lane pause, and wait until it does.
    Pause,
    /// Ask whether snapshots are due.
    AskExport,
    /// Have every lane go to this time and report.
    Checkpoint { watermark: Option<u64>, include_current: bool, finish: bool },
    /// Merge and publish the reports.
    Publish { include_current: bool },
    /// Join the workers.
    JoinWorkers,
    /// The barrier is passed.
    Pass,
    Fail(AgentError),
}

/// A barrier.
#[derive(Debug, Clone, Copy, PartialEq, Eq, Structural)]
pub struct Barrier {
    /// Whether it is the last one.
    pub finish: bool,
    pub phase: BarrierPhase,
}

impl Barrier {
    /// Only the last barrier drains queues and joins workers.
    pub open spec fn wf(self) -> bool {
        self.phase is Draining || self.phase is Joining ==> self.finish
    }

    /// Whether an event can come in this phase.
    pub open spec fn expects(self, e: BarrierEvent) -> bool {
        match self.phase {
            BarrierPhase::Draining | BarrierPhase::Reporting { .. } => e is Heard,
            BarrierPhase::Pausing => e is Paused,
            BarrierPhase::Asking { .. } => e is Due,
            BarrierPhase::Publishing => e is Done,
            BarrierPhase::Joining => e is Done || e is Panicked,
            BarrierPhase::Finished => false,
        }
    }

    pub open spec fn at(self, phase: BarrierPhase) -> Barrier {
        Barrier { phase, ..self }
    }

    /// The barrier fails and says why.
    pub open spec fn is_failure(self, next: Barrier, action: BarrierAction, m: Seq<char>) -> bool {
        &&& next == self.at(BarrierPhase::Finished)
        &&& action matches BarrierAction::Fail(AgentError::Source(s)) && s@ == m
    }

    /// Whether an event leads here: a stage is passed only if every lane has
    /// answered exactly once.
    pub open spec fn leads_to(self, e: BarrierEvent, next: Barrier, action: BarrierAction) -> bool {
        match self.phase {
            BarrierPhase::Draining => match lanes_fault(e->Heard_0@, BarrierStage::FinalDrain) {
                Some(m) => self.is_failure(next, action, m),
                None => next == self.at(BarrierPhase::Pausing) && action is Pause,
            },
            BarrierPhase::Pausing => match lanes_fault(e->Paused_0@, BarrierStage::Publication) {
                Some(m) => self.is_failure(next, action, m),
                None => next == self.at(
                    BarrierPhase::Asking { watermark: latest_of(e->Paused_1@) },
                ) && action is AskExport,
            },
            BarrierPhase::Asking { watermark } => {
                let include_current = e->Due_0;
                &&& next == self.at(BarrierPhase::Reporting { include_current })
                &&& action == (BarrierAction::Checkpoint {
                    watermark,
                    include_current,
                    finish: self.finish,
                })
            },
            BarrierPhase::Reporting { include_current } => match lanes_fault(
                e->Heard_0@,
                BarrierStage::Checkpoint,
            ) {
                Some(m) => self.is_failure(next, action, m),
                None => next == self.at(BarrierPhase::Publishing) && action
                    == (BarrierAction::Publish { include_current }),
            },
            BarrierPhase::Publishing => if self.finish {
                next == self.at(BarrierPhase::Joining) && action is JoinWorkers
            } else {
                next == self.at(BarrierPhase::Finished) && action is Pass
            },
            BarrierPhase::Joining => if e is Panicked {
                self.is_failure(
                    next,
                    action,
                    "queue-local runtime worker panicked during shutdown"@,
                )
            } else {
                next == self.at(BarrierPhase::Finished) && action is Pass
            },
            BarrierPhase::Finished => next == self && action is Pass,
        }
    }

    /// A barrier, and its first action.
    pub fn new(finish: bool) -> (r: (Self, BarrierAction))
        ensures
            r.0.finish == finish,
            r.0.wf(),
            finish ==> r.0.phase is Draining && r.1 is GatherDrained,
            !finish ==> r.0.phase is Pausing && r.1 is Pause,
    {
        if finish {
            (Barrier { finish, phase: BarrierPhase::Draining }, BarrierAction::GatherDrained)
        } else {
            (Barrier { finish, phase: BarrierPhase::Pausing }, BarrierAction::Pause)
        }
    }

    /// Whether an event can come in this phase.
    pub fn accepts(&self, e: &BarrierEvent) -> (r: bool)
        ensures
            r == self.expects(*e),
    {
        match self.phase {
            BarrierPhase::Draining | BarrierPhase::Reporting { .. } =>
                matches!(e, BarrierEvent::Heard(_)),
            BarrierPhase::Pausing => matches!(e, BarrierEvent::Paused(_, _)),
            BarrierPhase::Asking { .. } => matches!(e, BarrierEvent::Due(_)),
            BarrierPhase::Publishing => matches!(e, BarrierEvent::Done),
            BarrierPhase::Joining => matches!(e, BarrierEvent::Done)
                || matches!(e, BarrierEvent::Panicked),
            BarrierPhase::Finished => false,
        }
    }

    fn go(self, phase: BarrierPhase, action: BarrierAction) -> (r: (Self, BarrierAction))
        ensures
            r == (self.at(phase), action),
    {
        (Barrier { finish: self.finish, phase }, action)
    }

    /// Go on if every lane has answered.
    fn heard(
        self,
        lanes: &Vec<u64>,
        stage: BarrierStage,
        phase: BarrierPhase,
        action: BarrierAction,
    ) -> (r: (Self, BarrierAction))
        ensures
            match lanes_fault(lanes@, stage) {
                Some(m) => self.is_failure(r.0, r.1, m),
                None => r == (self.at(phase), action),
            },
    {
        match check_lanes(lanes, stage) {
            Ok(()) => self.go(phase, action),
            Err(e) => self.go(BarrierPhase::Finished, BarrierAction::Fail(e)),
        }
    }

    /// Go on after an action.
    pub fn step(self, e: BarrierEvent) -> (r: (Self, BarrierAction))
        requires
            self.wf(),
            self.expects(e),
        ensures
            self.leads_to(e, r.0, r.1),
            r.0.wf(),
    {
        match (self.phase, e) {
            (BarrierPhase::Draining, BarrierEvent::Heard(lanes)) => self.heard(
                &lanes,
                BarrierStage::FinalDrain,
                BarrierPhase::Pausing,
                BarrierAction::Pause,
            ),
            (BarrierPhase::Pausing, BarrierEvent::Paused(lanes, times)) => {
                let watermark = watermark(times.as_slice());
                self.heard(
                    &lanes,
                    BarrierStage::Publication,
                    BarrierPhase::Asking { watermark },
                    BarrierAction::AskExport,
                )
            },
            (BarrierPhase::Asking { watermark }, BarrierEvent::Due(include_current)) => self.go(
                BarrierPhase::Reporting { include_current },
                BarrierAction::Checkpoint { watermark, include_current, finish: self.finish },
            ),
            (BarrierPhase::Reporting { include_current }, BarrierEvent::Heard(lanes)) =>
                self.heard(
                    &lanes,
                    BarrierStage::Checkpoint,
                    BarrierPhase::Publishing,
                    BarrierAction::Publish { include_current },
                ),
            (BarrierPhase::Publishing, _) => if self.finish {
                self.go(BarrierPhase::Joining, BarrierAction::JoinWorkers)
            } else {
                self.go(BarrierPhase::Finished, BarrierAction::Pass)
            },
            (BarrierPhase::Joining, BarrierEvent::Panicked) => self.go(
                BarrierPhase::Finished,
                BarrierAction::Fail(
                    AgentError::Source(
                        "queue-local runtime worker panicked during shutdown".to_owned(),
                    ),
                ),
            ),
            (_, _) => self.go(BarrierPhase::Finished, BarrierAction::Pass),
        }
    }
}

// ---------------------------------------------------------------------------
// Laws
// ---------------------------------------------------------------------------

/// Lanes are asked for their windows only once all of them have paused, each
/// exactly once, and all of them are taken to the latest time that any of
/// them has seen.
pub proof fn law_checkpoint_follows_a_full_pause(
    b: Barrier,
    paused: Vec<u64>,
    times: Vec<Option<u64>>,
    asking: Barrier,
    ask: BarrierAction,
    due: bool,
    reporting: Barrier,
    checkpoint: BarrierAction,
)
    requires
        b.phase is Pausing,
        b.leads_to(BarrierEvent::Paused(paused, times), asking, ask),
        asking.phase is Asking,
        asking.leads_to(BarrierEvent::Due(due), reporting, checkpoint),
    ensures
        lanes_fault(paused@, BarrierStage::Publication) is None,
        checkpoint == (BarrierAction::Checkpoint {
            watermark: latest_of(times@),
            include_current: due,
            finish: b.finish,
        }),
{
}

/// Only what every lane has reported is published, and the last barrier joins
/// the workers after that.
pub proof fn law_publication_needs_every_report(
    b: Barrier,
    e: BarrierEvent,
    next: Barrier,
    action: BarrierAction,
)
    requires
        b.wf(),
        b.expects(e),
        b.leads_to(e, next, action),
    ensures
        action is Publish ==> b.phase is Reporting && lanes_fault(
            e->Heard_0@,
            BarrierStage::Checkpoint,
        ) is None,
        action is JoinWorkers ==> b.finish && b.phase is Publishing,
        action is Pass ==> (if b.finish {
            b.phase is Joining
        } else {
            b.phase is Publishing
        }),
{
}

} // verus!
