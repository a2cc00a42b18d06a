//! What a worker of a capture lane does next.
//!
//! A worker takes events from its queue in batches and stops between batches
//! for commands. A checkpoint has two phases: the worker pauses and says how
//! far in time it has come, then it is told how far all lanes have come.

use vstd::prelude::*;
use vstd::string::*;

use crate::text::{dec, push_decimal};

verus! {

/// A command to a worker.
#[derive(Debug, Clone, Copy, PartialEq, Eq, Structural)]
pub enum WorkerCommand {
    Pause,
    Checkpoint { finish: bool },
    Shutdown,
}

/// What a worker waits for.
#[derive(Debug, Clone, Copy, PartialEq, Eq, Structural)]
pub enum WorkerPhase {
    /// Whether there is a command.
    CheckingCommands,
    /// A command; there are no events any more.
    AwaitingCommand,
    /// The first event of a batch.
    AwaitingEvent,
    /// The engine, with an event of that time. So many were processed before.
    Processing { processed: u64, timestamp: u64 },
    /// Whether there is another event for the batch.
    TakingEvent { processed: u64 },
    /// Whether the end of the queue could be reported, in a batch or before.
    ReportingDrain { processed: u64 },
    /// The batch to be counted.
    CountingBatch,
    /// Whether the pause could be acknowledged.
    Acknowledging,
    /// The second phase of a checkpoint.
    Paused,
    /// Whether the report could be returned.
    Replying { finish: bool },
    /// Nothing any more.
    Stopped,
}

/// What happens to a worker.
#[derive(Debug, Clone, Copy, PartialEq, Eq, Structural)]
pub enum WorkerEvent {
    Command(WorkerCommand),
    NoCommand,
    CommandsClosed,
    /// An event with its time.
    Event(u64),
    NoEvent,
    EventsClosed,
    Done,
    Failed,
}

/// What a worker does.
#[derive(Debug, Clone, Copy, PartialEq, Eq, Structural)]
pub enum WorkerAction {
    TryCommand,
    WaitCommand,
    WaitEvent,
    TryEvent,
    Process,
    ReportDrain(Option<u64>),
    CountBatch(u64),
    Acknowledge(Option<u64>),
    Report { finish: bool },
    Stop,
    Fail(WorkerFault),
}

/// Why a worker fails.
#[derive(Debug, Clone, Copy, PartialEq, Eq, Structural)]
pub enum WorkerFault {
    CommandsClosed,
    CheckpointBeforePause,
    TwoPauses,
    CannotAcknowledge,
    CannotReply,
    CannotReportDrain,
    CannotProcess,
}

impl WorkerFault {
    /// The message about a lane. `detail` says why an event could not be
    /// processed.
    pub open spec fn text(self, lane: nat, detail: Seq<char>) -> Seq<char> {
        let head = "runtime worker "@ + dec(lane);
        match self {
            WorkerFault::CommandsClosed => head + " control channel disconnected"@,
            WorkerFault::CheckpointBeforePause => head + " received a checkpoint before pause"@,
            WorkerFault::TwoPauses => head + " received two pause commands"@,
            WorkerFault::CannotAcknowledge => head + " cannot acknowledge pause"@,
            WorkerFault::CannotReply => head + " cannot return checkpoint"@,
            WorkerFault::CannotReportDrain => head + " cannot report its final drain"@,
            WorkerFault::CannotProcess => head + " could not process event: "@ + detail,
        }
    }

    pub fn describe(self, lane: usize, detail: &str) -> (r: String)
        ensures
            r@ == self.text(lane as nat, detail@),
    {
        let mut out = "runtime worker ".to_owned();
        push_decimal(&mut out, lane as u64);
        match self {
            WorkerFault::CommandsClosed => {
                out.append(" control channel disconnected");
            },
            WorkerFault::CheckpointBeforePause => {
                out.append(" received a checkpoint before pause");
            },
            WorkerFault::TwoPauses => {
                out.append(" received two pause commands");
            },
            WorkerFault::CannotAcknowledge => {
                out.append(" cannot acknowledge pause");
            },
            WorkerFault::CannotReply => {
                out.append(" cannot return checkpoint");
            },
            WorkerFault::CannotReportDrain => {
                out.append(" cannot report its final drain");
            },
            WorkerFault::CannotProcess => {
                out.append(" could not process event: ");
                out.append(detail);
            },
        }
        out
    }
}

/// A worker.
#[derive(Debug, Clone, Copy, PartialEq, Eq, Structural)]
pub struct Worker {
    pub batch_size: u64,
    pub phase: WorkerPhase,
    /// Whether events can still come.
    pub data_open: bool,
    /// The latest time of any event that was processed.
    pub max_timestamp: Option<u64>,
}

/// The later of a time that may be known and one that is.
pub open spec fn later(known: Option<u64>, t: u64) -> Option<u64> {
    match known {
        None => Some(t),
        Some(m) => Some(
            if m < t {
                t
            } else {
                m
            },
        ),
    }
}

impl Worker {
    /// A batch is never larger than it may be.
    pub open spec fn wf(self) -> bool {
        &&& self.batch_size > 0
        &&& match self.phase {
            WorkerPhase::Processing { processed, .. } => processed < self.batch_size
                && self.data_open,
            WorkerPhase::TakingEvent { processed } => 0 < processed < self.batch_size
                && self.data_open,
            WorkerPhase::ReportingDrain { processed } => processed < self.batch_size
                && !self.data_open,
            WorkerPhase::AwaitingEvent => self.data_open,
            WorkerPhase::AwaitingCommand => !self.data_open,
            _ => true,
        }
    }

    /// Whether an event can come in this phase.
    pub open spec fn expects(self, e: WorkerEvent) -> bool {
        match self.phase {
            WorkerPhase::CheckingCommands => e is Command || e is NoCommand || e is CommandsClosed,
            WorkerPhase::AwaitingCommand => e is Command || e is CommandsClosed,
            WorkerPhase::AwaitingEvent => e is Event || e is NoEvent || e is EventsClosed,
            WorkerPhase::Processing { .. } => e is Done || e is Failed,
            WorkerPhase::TakingEvent { .. } => e is Event || e is NoEvent || e is EventsClosed,
            WorkerPhase::ReportingDrain { .. } => e is Done || e is Failed,
            WorkerPhase::CountingBatch => e is Done,
            WorkerPhase::Acknowledging => e is Done || e is Failed,
            WorkerPhase::Paused => e is Command || e is CommandsClosed,
            WorkerPhase::Replying { .. } => e is Done || e is Failed,
            WorkerPhase::Stopped => false,
        }
    }

    /// Whether an event can come in this phase.
    pub fn accepts(&self, e: WorkerEvent) -> (r: bool)
        ensures
            r == self.expects(e),
    {
        match self.phase {
            WorkerPhase::CheckingCommands => matches!(
                e,
                WorkerEvent::Command(_) | WorkerEvent::NoCommand | WorkerEvent::CommandsClosed
            ),
            WorkerPhase::AwaitingCommand | WorkerPhase::Paused => matches!(
                e,
                WorkerEvent::Command(_) | WorkerEvent::CommandsClosed
            ),
            WorkerPhase::AwaitingEvent | WorkerPhase::TakingEvent { .. } => matches!(
                e,
                WorkerEvent::Event(_) | WorkerEvent::NoEvent | WorkerEvent::EventsClosed
            ),
            WorkerPhase::Processing { .. } | WorkerPhase::ReportingDrain { .. }
            | WorkerPhase::Acknowledging | WorkerPhase::Replying { .. } => matches!(
                e,
                WorkerEvent::Done | WorkerEvent::Failed
            ),
            WorkerPhase::CountingBatch => matches!(e, WorkerEvent::Done),
            WorkerPhase::Stopped => false,
        }
    }

    pub open spec fn stopped(self) -> (Worker, WorkerAction) {
        (Worker { phase: WorkerPhase::Stopped, ..self }, WorkerAction::Stop)
    }

    pub open spec fn failed(self, fault: WorkerFault) -> (Worker, WorkerAction) {
        (Worker { phase: WorkerPhase::Stopped, ..self }, WorkerAction::Fail(fault))
    }

    /// Back to the commands.
    pub open spec fn free(self) -> (Worker, WorkerAction) {
        (Worker { phase: WorkerPhase::CheckingCommands, ..self }, WorkerAction::TryCommand)
    }

    /// A batch is over; one without events was none.
    pub open spec fn batch_over(self, processed: u64) -> (Worker, WorkerAction) {
        if processed == 0 {
            self.free()
        } else {
            (
                Worker { phase: WorkerPhase::CountingBatch, ..self },
                WorkerAction::CountBatch(processed),
            )
        }
    }

    /// The end of the queue.
    pub open spec fn drained(self, processed: u64) -> (Worker, WorkerAction) {
        (
            Worker {
                phase: WorkerPhase::ReportingDrain { processed },
                data_open: false,
                ..self
            },
            WorkerAction::ReportDrain(self.max_timestamp),
        )
    }

    /// A command outside a checkpoint.
    pub open spec fn commanded(self, c: WorkerCommand) -> (Worker, WorkerAction) {
        match c {
            WorkerCommand::Shutdown => self.stopped(),
            WorkerCommand::Checkpoint { .. } => self.failed(WorkerFault::CheckpointBeforePause),
            WorkerCommand::Pause => (
                Worker { phase: WorkerPhase::Acknowledging, ..self },
                WorkerAction::Acknowledge(self.max_timestamp),
            ),
        }
    }

    /// The worker after an event, and what it does.
    pub open spec fn next(self, e: WorkerEvent) -> (Worker, WorkerAction) {
        match (self.phase, e) {
            (WorkerPhase::CheckingCommands, WorkerEvent::Command(c)) => self.commanded(c),
            (WorkerPhase::CheckingCommands, WorkerEvent::NoCommand) => if self.data_open {
                (
                    Worker { phase: WorkerPhase::AwaitingEvent, ..self },
                    WorkerAction::WaitEvent,
                )
            } else {
                (
                    Worker { phase: WorkerPhase::AwaitingCommand, ..self },
                    WorkerAction::WaitCommand,
                )
            },
            (WorkerPhase::CheckingCommands, _) => self.stopped(),
            (WorkerPhase::AwaitingCommand, WorkerEvent::Command(c)) => self.commanded(c),
            (WorkerPhase::AwaitingCommand, _) => self.failed(WorkerFault::CommandsClosed),
            (WorkerPhase::AwaitingEvent, WorkerEvent::Event(t)) => (
                Worker { phase: WorkerPhase::Processing { processed: 0, timestamp: t }, ..self },
                WorkerAction::Process,
            ),
            (WorkerPhase::AwaitingEvent, WorkerEvent::EventsClosed) => self.drained(0),
            (WorkerPhase::AwaitingEvent, _) => self.free(),
            (WorkerPhase::Processing { processed, timestamp }, WorkerEvent::Done) => {
                let seen = Worker {
                    max_timestamp: later(self.max_timestamp, timestamp),
                    ..self
                };
                let n = (processed + 1) as u64;
                if n == self.batch_size {
                    seen.batch_over(n)
                } else {
                    (
                        Worker { phase: WorkerPhase::TakingEvent { processed: n }, ..seen },
                        WorkerAction::TryEvent,
                    )
                }
            },
            (WorkerPhase::Processing { .. }, _) => self.failed(WorkerFault::CannotProcess),
            (WorkerPhase::TakingEvent { processed }, WorkerEvent::Event(t)) => (
                Worker { phase: WorkerPhase::Processing { processed, timestamp: t }, ..self },
                WorkerAction::Process,
            ),
            (WorkerPhase::TakingEvent { processed }, WorkerEvent::EventsClosed) => self.drained(
                processed,
            ),
            (WorkerPhase::TakingEvent { processed }, _) => self.batch_over(processed),
            (WorkerPhase::ReportingDrain { processed }, WorkerEvent::Done) => self.batch_over(
                processed,
            ),
            (WorkerPhase::ReportingDrain { .. }, _) => self.failed(WorkerFault::CannotReportDrain),
            (WorkerPhase::CountingBatch, _) => self.free(),
            (WorkerPhase::Acknowledging, WorkerEvent::Done) => (
                Worker { phase: WorkerPhase::Paused, ..self },
                WorkerAction::WaitCommand,
            ),
            (WorkerPhase::Acknowledging, _) => self.failed(WorkerFault::CannotAcknowledge),
            (WorkerPhase::Paused, WorkerEvent::Command(WorkerCommand::Checkpoint { finish })) => (
                Worker { phase: WorkerPhase::Replying { finish }, ..self },
                WorkerAction::Report { finish },
            ),
            (WorkerPhase::Paused, WorkerEvent::Command(WorkerCommand::Pause)) => self.failed(
                WorkerFault::TwoPauses,
            ),
            (WorkerPhase::Paused, _) => self.stopped(),
            (WorkerPhase::Replying { finish }, WorkerEvent::Done) => if finish {
                self.stopped()
            } else {
                self.free()
            },
            (WorkerPhase::Replying { .. }, _) => self.failed(WorkerFault::CannotReply),
            (WorkerPhase::Stopped, _) => self.stopped(),
        }
    }

    /// A worker that has done nothing. It first looks for a command.
    pub fn new(batch_size: u64) -> (r: Self)
        requires
            batch_size > 0,
        ensures
            r == (Worker {
                batch_size,
                phase: WorkerPhase::CheckingCommands,
                data_open: true,
                max_timestamp: None,
            }),
            r.wf(),
    {
        Worker {
            batch_size,
            phase: WorkerPhase::CheckingCommands,
            data_open: true,
            max_timestamp: None,
        }
    }

    fn moved(self, phase: WorkerPhase) -> (r: Self)
        ensures
            r == (Worker { phase, ..self }),
    {
        Worker {
            batch_size: self.batch_size,
            phase,
            data_open: self.data_open,
            max_timestamp: self.max_timestamp,
        }
    }

    fn end(self) -> (r: (Self, WorkerAction))
        ensures
            r == self.stopped(),
    {
        (self.moved(WorkerPhase::Stopped), WorkerAction::Stop)
    }

    fn fail(self, fault: WorkerFault) -> (r: (Self, WorkerAction))
        ensures
            r == self.failed(fault),
    {
        (self.moved(WorkerPhase::Stopped), WorkerAction::Fail(fault))
    }

    fn look(self) -> (r: (Self, WorkerAction))
        ensures
            r == self.free(),
    {
        (self.moved(WorkerPhase::CheckingCommands), WorkerAction::TryCommand)
    }

    fn close_batch(self, processed: u64) -> (r: (Self, WorkerAction))
        ensures
            r == self.batch_over(processed),
    {
        if processed == 0 {
            self.look()
        } else {
            (self.moved(WorkerPhase::CountingBatch), WorkerAction::CountBatch(processed))
        }
    }

    fn drain(self, processed: u64) -> (r: (Self, WorkerAction))
        ensures
            r == self.drained(processed),
    {
        let mut w = self.moved(WorkerPhase::ReportingDrain { processed });
        w.data_open = false;
        (w, WorkerAction::ReportDrain(self.max_timestamp))
    }

    fn command(self, c: WorkerCommand) -> (r: (Self, WorkerAction))
        ensures
            r == self.commanded(c),
    {
        match c {
            WorkerCommand::Shutdown => self.end(),
            WorkerCommand::Checkpoint { .. } => self.fail(WorkerFault::CheckpointBeforePause),
            WorkerCommand::Pause => (
                self.moved(WorkerPhase::Acknowledging),
                WorkerAction::Acknowledge(self.max_timestamp),
            ),
        }
    }

    /// Take in what happened, and say what to do.
    pub fn step(self, e: WorkerEvent) -> (r: (Self, WorkerAction))
        requires
            self.wf(),
            self.expects(e),
        ensures
            r == self.next(e),
            r.0.wf(),
    {
        match self.phase {
            WorkerPhase::CheckingCommands => match e {
                WorkerEvent::Command(c) => self.command(c),
                WorkerEvent::NoCommand => if self.data_open {
                    (self.moved(WorkerPhase::AwaitingEvent), WorkerAction::WaitEvent)
                } else {
                    (self.moved(WorkerPhase::AwaitingCommand), WorkerAction::WaitCommand)
                },
                _ => self.end(),
            },
            WorkerPhase::AwaitingCommand => match e {
                WorkerEvent::Command(c) => self.command(c),
                _ => self.fail(WorkerFault::CommandsClosed),
            },
            WorkerPhase::AwaitingEvent => match e {
                WorkerEvent::Event(t) => (
                    self.moved(WorkerPhase::Processing { processed: 0, timestamp: t }),
                    WorkerAction::Process,
                ),
                WorkerEvent::EventsClosed => self.drain(0),
                _ => self.look(),
            },
            WorkerPhase::Processing { processed, timestamp } => match e {
                WorkerEvent::Done => {
                    let mut seen = self;
                    seen.max_timestamp = match self.max_timestamp {
                        None => Some(timestamp),
                        Some(m) => Some(
                            if m < timestamp {
                                timestamp
                            } else {
                                m
                            },
                        ),
                    };
                    let n: u64 = processed + 1;
                    if n == self.batch_size {
                        seen.close_batch(n)
                    } else {
                        (seen.moved(WorkerPhase::TakingEvent { processed: n }), WorkerAction::TryEvent)
                    }
                },
                _ => self.fail(WorkerFault::CannotProcess),
            },
            WorkerPhase::TakingEvent { processed } => match e {
                WorkerEvent::Event(t) => (
                    self.moved(WorkerPhase::Processing { processed, timestamp: t }),
                    WorkerAction::Process,
                ),
                WorkerEvent::EventsClosed => self.drain(processed),
                _ => self.close_batch(processed),
            },
            WorkerPhase::ReportingDrain { processed } => match e {
                WorkerEvent::Done => self.close_batch(processed),
                _ => self.fail(WorkerFault::CannotReportDrain),
            },
            WorkerPhase::CountingBatch => self.look(),
            WorkerPhase::Acknowledging => match e {
                WorkerEvent::Done => (self.moved(WorkerPhase::Paused), WorkerAction::WaitCommand),
                _ => self.fail(WorkerFault::CannotAcknowledge),
            },
            WorkerPhase::Paused => match e {
                WorkerEvent::Command(WorkerCommand::Checkpoint { finish }) => (
                    self.moved(WorkerPhase::Replying { finish }),
                    WorkerAction::Report { finish },
                ),
                WorkerEvent::Command(WorkerCommand::Pause) => self.fail(WorkerFault::TwoPauses),
                _ => self.end(),
            },
            WorkerPhase::Replying { finish } => match e {
                WorkerEvent::Done => if finish {
                    self.end()
                } else {
                    self.look()
                },
                _ => self.fail(WorkerFault::CannotReply),
            },
            WorkerPhase::Stopped => self.end(),
        }
    }
}

// ---------------------------------------------------------------------------
// Laws
// ---------------------------------------------------------------------------

/// No batch is empty or larger than it may be, and once a batch is full no
/// further event is taken from the queue before it is counted.
pub proof fn law_batches_are_bounded(w: Worker, e: WorkerEvent)
    requires
        w.wf(),
        w.expects(e),
    ensures
        w.next(e).1 matches WorkerAction::CountBatch(n) ==> 1 <= n <= w.batch_size,
        w.next(e).1 is TryEvent ==> (w.next(e).0.phase matches WorkerPhase::TakingEvent {
            processed,
        } && processed < w.batch_size),
        w.next(e).0.batch_size == w.batch_size,
{
}

/// The end of the queue is reported when it is found, and never again.
pub proof fn law_drain_is_reported_once(w: Worker, e: WorkerEvent)
    requires
        w.wf(),
        w.expects(e),
    ensures
        w.next(e).1 is ReportDrain <==> w.data_open && !w.next(e).0.data_open,
        w.next(e).0.data_open ==> w.data_open,
{
}

/// The time that a worker has come to never falls, and covers every event that
/// it has processed.
pub proof fn law_worker_time_never_falls(w: Worker, e: WorkerEvent)
    requires
        w.wf(),
        w.expects(e),
    ensures
        w.max_timestamp is Some ==> w.next(e).0.max_timestamp is Some && w.max_timestamp->0
            <= w.next(e).0.max_timestamp->0,
        w.phase matches WorkerPhase::Processing { timestamp, .. } ==> e is Done ==> w.next(
            e,
        ).0.max_timestamp is Some && timestamp <= w.next(e).0.max_timestamp->0,
{
}

/// A checkpoint is only ever answered by a worker that has paused.
pub proof fn law_checkpoint_needs_a_pause(w: Worker, e: WorkerEvent)
    requires
        w.wf(),
        w.expects(e),
    ensures
        w.next(e).1 is Report ==> w.phase is Paused,
        w.next(e).0.phase is Paused ==> w.phase is Acknowledging && e is Done,
{
}

} // verus!
