//! The loop between one event queue and the sharded engine: it gathers events
//! into batches, has them processed, and publishes after every batch.

use vstd::prelude::*;

verus! {

/// Where the loop stands.
#[derive(Debug, Clone, Copy, PartialEq, Eq, Structural)]
pub enum BatchPhase {
    /// It waits for the first event of a batch.
    Waiting,
    /// It takes what else is queued.
    Filling { held: u64 },
    /// A batch is being processed.
    Processing { held: u64 },
    /// A processed batch is being counted.
    Counting,
    /// What windows have closed is being published.
    Publishing,
    /// The queue is closed: open windows are being ended.
    Finishing,
    /// The last windows are being published.
    PublishingLast,
    Finished,
}

/// What comes of an action.
#[derive(Debug, Clone, Copy, PartialEq, Eq, Structural)]
pub enum BatchEvent {
    /// An event was taken from the queue.
    Event,
    /// There was none.
    NoEvent,
    /// There will be none.
    Closed,
    /// The action is done.
    Done,
}

/// What to do next.
#[derive(Debug, Clone, Copy, PartialEq, Eq, Structural)]
pub enum BatchAction {
    /// Wait for an event, as long as a flush interval lasts.
    WaitEvent,
    /// Take an event if one is queued.
    TryEvent,
    /// Process the events held, this many.
    Process(u64),
    /// Count a batch of this many events.
    Count(u64),
    /// Publish what windows have closed; `last` also exports snapshots
    /// whatever their schedule.
    Publish { last: bool },
    /// End the open windows.
    Finish,
    /// Leave the loop.
    End,
}

/// The loop.
#[derive(Debug, Clone, Copy, PartialEq, Eq, Structural)]
pub struct Batcher {
    pub batch_size: u64,
    pub phase: BatchPhase,
}

impl Batcher {
    /// A batch that is being filled has room, and no batch is empty or larger
    /// than allowed.
    pub open spec fn wf(self) -> bool {
        &&& self.batch_size > 0
        &&& match self.phase {
            BatchPhase::Filling { held } => 0 < held < self.batch_size,
            BatchPhase::Processing { held } => 0 < held <= self.batch_size,
            _ => true,
        }
    }

    /// Whether an event can come in this phase.
    pub open spec fn expects(self, e: BatchEvent) -> bool {
        match self.phase {
            BatchPhase::Waiting | BatchPhase::Filling { .. } => !(e is Done),
            BatchPhase::Finished => false,
            _ => e is Done,
        }
    }

    /// Events taken from the queue and not processed.
    pub open spec fn held(self) -> nat {
        match self.phase {
            BatchPhase::Filling { held } => held as nat,
            BatchPhase::Processing { held } => held as nat,
            _ => 0,
        }
    }

    /// The loop with a batch of `held` events: it takes more while there is
    /// room.
    pub open spec fn with_batch(self, held: u64) -> (Batcher, BatchAction) {
        if held < self.batch_size {
            (Batcher { phase: BatchPhase::Filling { held }, ..self }, BatchAction::TryEvent)
        } else {
            self.processing(held)
        }
    }

    pub open spec fn processing(self, held: u64) -> (Batcher, BatchAction) {
        (Batcher { phase: BatchPhase::Processing { held }, ..self }, BatchAction::Process(held))
    }

    /// What an event leads to.
    pub open spec fn stepped(self, e: BatchEvent) -> (Batcher, BatchAction) {
        match self.phase {
            BatchPhase::Waiting => match e {
                BatchEvent::Event => self.with_batch(1),
                BatchEvent::Closed => (
                    Batcher { phase: BatchPhase::Finishing, ..self },
                    BatchAction::Finish,
                ),
                _ => (
                    Batcher { phase: BatchPhase::Publishing, ..self },
                    BatchAction::Publish { last: false },
                ),
            },
            BatchPhase::Filling { held } => match e {
                BatchEvent::Event => self.with_batch((held + 1) as u64),
                _ => self.processing(held),
            },
            BatchPhase::Processing { held } => (
                Batcher { phase: BatchPhase::Counting, ..self },
                BatchAction::Count(held),
            ),
            BatchPhase::Counting => (
                Batcher { phase: BatchPhase::Publishing, ..self },
                BatchAction::Publish { last: false },
            ),
            BatchPhase::Publishing => (
                Batcher { phase: BatchPhase::Waiting, ..self },
                BatchAction::WaitEvent,
            ),
            BatchPhase::Finishing => (
                Batcher { phase: BatchPhase::PublishingLast, ..self },
                BatchAction::Publish { last: true },
            ),
            BatchPhase::PublishingLast | BatchPhase::Finished => (
                Batcher { phase: BatchPhase::Finished, ..self },
                BatchAction::End,
            ),
        }
    }

    /// Whether an event can come in this phase.
    pub fn accepts(&self, e: BatchEvent) -> (r: bool)
        ensures
            r == self.expects(e),
    {
        match self.phase {
            BatchPhase::Waiting | BatchPhase::Filling { .. } => !matches!(e, BatchEvent::Done),
            BatchPhase::Finished => false,
            _ => matches!(e, BatchEvent::Done),
        }
    }

    /// The loop at its start; its first action is to wait for an event.
    pub fn new(batch_size: u64) -> (r: Self)
        requires
            batch_size > 0,
        ensures
            r == (Batcher { batch_size, phase: BatchPhase::Waiting }),
            r.wf(),
    {
        Batcher { batch_size, phase: BatchPhase::Waiting }
    }

    fn go(self, phase: BatchPhase, action: BatchAction) -> (r: (Self, BatchAction))
        ensures
            r == (Batcher { phase, ..self }, action),
    {
        (Batcher { batch_size: self.batch_size, phase }, action)
    }

    fn fill(self, held: u64) -> (r: (Self, BatchAction))
        ensures
            r == self.with_batch(held),
    {
        if held < self.batch_size {
            self.go(BatchPhase::Filling { held }, BatchAction::TryEvent)
        } else {
            self.go(BatchPhase::Processing { held }, BatchAction::Process(held))
        }
    }

    /// Go on after an action.
    pub fn step(self, e: BatchEvent) -> (r: (Self, BatchAction))
        requires
            self.wf(),
            self.expects(e),
        ensures
            r == self.stepped(e),
            r.0.wf(),
    {
        match self.phase {
            BatchPhase::Waiting => match e {
                BatchEvent::Event => self.fill(1),
                BatchEvent::Closed => self.go(BatchPhase::Finishing, BatchAction::Finish),
                _ => self.go(BatchPhase::Publishing, BatchAction::Publish { last: false }),
            },
            BatchPhase::Filling { held } => match e {
                BatchEvent::Event => self.fill(held + 1),
                _ => self.go(BatchPhase::Processing { held }, BatchAction::Process(held)),
            },
            BatchPhase::Processing { held } => self.go(
                BatchPhase::Counting,
                BatchAction::Count(held),
            ),
            BatchPhase::Counting => self.go(
                BatchPhase::Publishing,
                BatchAction::Publish { last: false },
            ),
            BatchPhase::Publishing => self.go(BatchPhase::Waiting, BatchAction::WaitEvent),
            BatchPhase::Finishing => self.go(
                BatchPhase::PublishingLast,
                BatchAction::Publish { last: true },
            ),
            BatchPhase::PublishingLast | BatchPhase::Finished => self.go(
                BatchPhase::Finished,
                BatchAction::End,
            ),
        }
    }
}

// ---------------------------------------------------------------------------
// Laws
// ---------------------------------------------------------------------------

/// The loop after events, first to last.
pub open spec fn run(b: Batcher, events: Seq<BatchEvent>) -> Batcher
    decreases events.len(),
{
    if events.len() == 0 {
        b
    } else {
        run(b, events.drop_last()).stepped(events.last()).0
    }
}

/// Every event can come where it comes.
pub open spec fn is_run(b: Batcher, events: Seq<BatchEvent>) -> bool
    decreases events.len(),
{
    events.len() > 0 ==> is_run(b, events.drop_last()) && run(b, events.drop_last()).expects(
        events.last(),
    )
}

/// How many events were taken from the queue.
pub open spec fn taken(events: Seq<BatchEvent>) -> nat
    decreases events.len(),
{
    if events.len() == 0 {
        0
    } else {
        taken(events.drop_last()) + if events.last() is Event {
            1nat
        } else {
            0
        }
    }
}

/// How many events were processed: those of the batches whose processing is
/// done.
pub open spec fn processed(b: Batcher, events: Seq<BatchEvent>) -> nat
    decreases events.len(),
{
    if events.len() == 0 {
        0
    } else {
        let before = events.drop_last();
        processed(b, before) + match run(b, before).phase {
            BatchPhase::Processing { held } => held as nat,
            _ => 0,
        }
    }
}

/// No event is lost and none is processed twice: at any time, what was taken
/// is what was processed and what is held.
pub proof fn law_every_event_is_processed_once(b: Batcher, events: Seq<BatchEvent>)
    requires
        b.wf(),
        b.phase is Waiting,
        is_run(b, events),
    ensures
        run(b, events).wf(),
        taken(events) == processed(b, events) + run(b, events).held(),
    decreases events.len(),
{
    if events.len() > 0 {
        law_every_event_is_processed_once(b, events.drop_last());
    }
}

/// A batch is never empty and never larger than allowed.
pub proof fn law_processed_batches_are_bounded(b: Batcher, e: BatchEvent)
    requires
        b.wf(),
        b.expects(e),
    ensures
        b.stepped(e).1 matches BatchAction::Process(n) ==> 0 < n <= b.batch_size,
{
}

/// The loop ends only after the queue is closed, and not before the open
/// windows are ended and the last ones are published.
pub proof fn law_last_windows_are_published(b: Batcher)
    requires
        b.wf(),
        b.phase is Waiting,
    ensures
        ({
            let (ending, first) = b.stepped(BatchEvent::Closed);
            let (publishing, second) = ending.stepped(BatchEvent::Done);
            let (finished, third) = publishing.stepped(BatchEvent::Done);
            &&& first is Finish
            &&& second == BatchAction::Publish { last: true }
            &&& third is End && finished.phase is Finished
        }),
        forall|c: Batcher, e: BatchEvent|
            c.wf() && c.expects(e) && (#[trigger] c.stepped(e)).1 is End
                ==> c.phase is PublishingLast,
        forall|c: Batcher, e: BatchEvent|
            c.wf() && c.expects(e) && (#[trigger] c.stepped(e)).0.phase is Finishing
                ==> c.phase is Waiting && e is Closed,
{
}

} // verus!
