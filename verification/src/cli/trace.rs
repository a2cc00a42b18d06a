//! Feeding a trace to the query engine, one event after another or in shards.

use vstd::prelude::*;
use vstd::string::*;

use crate::event::FlowEvent;

verus! {

// ---------------------------------------------------------------------------
// One engine
// ---------------------------------------------------------------------------

/// Where the feed stands.
#[derive(Debug, Clone, Copy, PartialEq, Eq, Structural)]
pub enum FeedPhase {
    /// The next event is being read.
    Reading,
    /// The event is being processed.
    Processing,
    /// The engine could take no more: what it has is being drained.
    Draining { at_end: bool },
    /// After an event, the engine is asked whether its output is full.
    Checking,
    /// Its output is full: it is being drained.
    Relieving,
    /// There are no more events: open windows are being ended.
    Finishing,
    Finished,
}

/// What comes of an action.
#[derive(Debug, Clone, Copy, PartialEq, Eq, Structural)]
pub enum FeedEvent {
    /// An event was read.
    Event,
    /// The trace is over.
    EndOfTrace,
    /// The engine has done what it was asked for.
    Done,
    /// The engine can take no more before it is drained.
    Backpressure,
    /// The engine has failed.
    Failed,
    /// Whether the output of the engine is full.
    Full(bool),
    /// This many estimates were drained.
    Drained(u64),
}

/// What to do next.
#[derive(Debug, Clone, Copy, PartialEq, Eq, Structural)]
pub enum FeedAction {
    /// Read an event.
    Read,
    /// Process the event that was read.
    Process,
    /// Take what estimates there are.
    Drain,
    /// Ask whether the output is full.
    CheckFull,
    /// End the open windows.
    Finish,
    /// Report on the trace.
    Report,
    /// Give up: the engine has failed.
    Fail { at_end: bool },
    /// Give up: the engine is full and has nothing to drain.
    Stuck { at_end: bool },
}

/// The feed.
#[derive(Debug, Clone, Copy, PartialEq, Eq, Structural)]
pub struct Feed {
    /// Whether there is an engine; without one the trace is only read.
    pub engine: bool,
    /// Estimates drained.
    pub estimates: u64,
    pub phase: FeedPhase,
}

impl Feed {
    /// Without an engine the feed only reads.
    pub open spec fn wf(self) -> bool {
        self.engine || self.phase is Reading || self.phase is Finished
    }

    /// Whether an event can come in this phase.
    pub open spec fn expects(self, e: FeedEvent) -> bool {
        match self.phase {
            FeedPhase::Reading => e is Event || e is EndOfTrace,
            FeedPhase::Processing | FeedPhase::Finishing => e is Done || e is Backpressure || e
                is Failed,
            FeedPhase::Checking => e is Full,
            FeedPhase::Draining { .. } | FeedPhase::Relieving => e matches FeedEvent::Drained(n)
                && self.estimates + n <= u64::MAX,
            FeedPhase::Finished => false,
        }
    }

    pub open spec fn at(self, phase: FeedPhase) -> Feed {
        Feed { phase, ..self }
    }

    pub open spec fn counting(self, n: u64) -> Feed {
        Feed { estimates: (self.estimates + n) as u64, ..self }
    }

    /// What an engine call comes to, where success leads to `next`.
    pub open spec fn called(self, e: FeedEvent, at_end: bool, next: (Feed, FeedAction)) -> (
        Feed,
        FeedAction,
    ) {
        match e {
            FeedEvent::Done => next,
            FeedEvent::Backpressure => (
                self.at(FeedPhase::Draining { at_end }),
                FeedAction::Drain,
            ),
            _ => (self.at(FeedPhase::Finished), FeedAction::Fail { at_end }),
        }
    }

    /// What an event leads to.
    pub open spec fn stepped(self, e: FeedEvent) -> (Feed, FeedAction) {
        match self.phase {
            FeedPhase::Reading => if e is Event {
                if self.engine {
                    (self.at(FeedPhase::Processing), FeedAction::Process)
                } else {
                    (self, FeedAction::Read)
                }
            } else if self.engine {
                (self.at(FeedPhase::Finishing), FeedAction::Finish)
            } else {
                (self.at(FeedPhase::Finished), FeedAction::Report)
            },
            FeedPhase::Processing => self.called(
                e,
                false,
                (self.at(FeedPhase::Checking), FeedAction::CheckFull),
            ),
            FeedPhase::Finishing => self.called(
                e,
                true,
                (self.at(FeedPhase::Finished), FeedAction::Report),
            ),
            FeedPhase::Checking => if e == FeedEvent::Full(true) {
                (self.at(FeedPhase::Relieving), FeedAction::Drain)
            } else {
                (self.at(FeedPhase::Reading), FeedAction::Read)
            },
            FeedPhase::Relieving => (
                self.counting(e->Drained_0).at(FeedPhase::Reading),
                FeedAction::Read,
            ),
            FeedPhase::Draining { at_end } => if e->Drained_0 == 0 {
                (self.at(FeedPhase::Finished), FeedAction::Stuck { at_end })
            } else if at_end {
                (self.counting(e->Drained_0).at(FeedPhase::Finishing), FeedAction::Finish)
            } else {
                (self.counting(e->Drained_0).at(FeedPhase::Processing), FeedAction::Process)
            },
            FeedPhase::Finished => (self, FeedAction::Report),
        }
    }

    /// The feed at its start; its first action is to read.
    pub fn new(engine: bool) -> (r: Self)
        ensures
            r == (Feed { engine, estimates: 0, phase: FeedPhase::Reading }),
            r.wf(),
    {
        Feed { engine, estimates: 0, phase: FeedPhase::Reading }
    }

    /// Whether an event can come in this phase.
    pub fn accepts(&self, e: FeedEvent) -> (r: bool)
        ensures
            r == self.expects(e),
    {
        match self.phase {
            FeedPhase::Reading => matches!(e, FeedEvent::Event)
                || matches!(e, FeedEvent::EndOfTrace),
            FeedPhase::Processing | FeedPhase::Finishing => matches!(e, FeedEvent::Done)
                || matches!(e, FeedEvent::Backpressure) || matches!(e, FeedEvent::Failed),
            FeedPhase::Checking => matches!(e, FeedEvent::Full(_)),
            FeedPhase::Draining { .. } | FeedPhase::Relieving => match e {
                FeedEvent::Drained(n) => n <= u64::MAX - self.estimates,
                _ => false,
            },
            FeedPhase::Finished => false,
        }
    }

    fn go(self, drained: u64, phase: FeedPhase, action: FeedAction) -> (r: (Self, FeedAction))
        requires
            self.estimates + drained <= u64::MAX,
        ensures
            r == (self.counting(drained).at(phase), action),
    {
        (Feed { engine: self.engine, estimates: self.estimates + drained, phase }, action)
    }

    /// Go on after an action.
    pub fn step(self, e: FeedEvent) -> (r: (Self, FeedAction))
        requires
            self.wf(),
            self.expects(e),
        ensures
            r == self.stepped(e),
            r.0.wf(),
    {
        match self.phase {
            FeedPhase::Reading => {
                let more = matches!(e, FeedEvent::Event);
                if more && self.engine {
                    self.go(0, FeedPhase::Processing, FeedAction::Process)
                } else if more {
                    self.go(0, FeedPhase::Reading, FeedAction::Read)
                } else if self.engine {
                    self.go(0, FeedPhase::Finishing, FeedAction::Finish)
                } else {
                    self.go(0, FeedPhase::Finished, FeedAction::Report)
                }
            },
            FeedPhase::Processing => match e {
                FeedEvent::Done => self.go(0, FeedPhase::Checking, FeedAction::CheckFull),
                FeedEvent::Backpressure => self.go(
                    0,
                    FeedPhase::Draining { at_end: false },
                    FeedAction::Drain,
                ),
                _ => self.go(0, FeedPhase::Finished, FeedAction::Fail { at_end: false }),
            },
            FeedPhase::Finishing => match e {
                FeedEvent::Done => self.go(0, FeedPhase::Finished, FeedAction::Report),
                FeedEvent::Backpressure => self.go(
                    0,
                    FeedPhase::Draining { at_end: true },
                    FeedAction::Drain,
                ),
                _ => self.go(0, FeedPhase::Finished, FeedAction::Fail { at_end: true }),
            },
            FeedPhase::Checking => match e {
                FeedEvent::Full(true) => self.go(0, FeedPhase::Relieving, FeedAction::Drain),
                _ => self.go(0, FeedPhase::Reading, FeedAction::Read),
            },
            FeedPhase::Relieving => match e {
                FeedEvent::Drained(n) => self.go(n, FeedPhase::Reading, FeedAction::Read),
                _ => self.go(0, FeedPhase::Reading, FeedAction::Read),
            },
            FeedPhase::Draining { at_end } => match e {
                FeedEvent::Drained(n) => if n == 0 {
                    self.go(0, FeedPhase::Finished, FeedAction::Stuck { at_end })
                } else if at_end {
                    self.go(n, FeedPhase::Finishing, FeedAction::Finish)
                } else {
                    self.go(n, FeedPhase::Processing, FeedAction::Process)
                },
                _ => self.go(0, FeedPhase::Finished, FeedAction::Stuck { at_end }),
            },
            FeedPhase::Finished => self.go(0, FeedPhase::Finished, FeedAction::Report),
        }
    }
}

/// Why a feed gave up that is full and has nothing to drain.
pub fn stuck(at_end: bool) -> (r: &'static str)
    ensures
        r@ == (if at_end {
            "runtime reported final-output backpressure without a drainable window"@
        } else {
            "runtime reported output backpressure without a drainable window"@
        }),
{
    if at_end {
        "runtime reported final-output backpressure without a drainable window"
    } else {
        "runtime reported output backpressure without a drainable window"
    }
}

/// What an engine that has failed was doing.
pub fn failed_at(at_end: bool) -> (r: &'static str)
    ensures
        r@ == (if at_end {
            "final window flush failed"@
        } else {
            "sketch update failed"@
        }),
{
    if at_end {
        "final window flush failed"
    } else {
        "sketch update failed"
    }
}

/// The feed after events, first to last.
pub open spec fn run(f: Feed, events: Seq<FeedEvent>) -> Feed
    decreases events.len(),
{
    if events.len() == 0 {
        f
    } else {
        run(f, events.drop_last()).stepped(events.last()).0
    }
}

/// Every event can come where it comes.
pub open spec fn is_run(f: Feed, events: Seq<FeedEvent>) -> bool
    decreases events.len(),
{
    events.len() > 0 ==> is_run(f, events.drop_last()) && run(f, events.drop_last()).expects(
        events.last(),
    )
}

/// How many events were read.
pub open spec fn events_read(events: Seq<FeedEvent>) -> nat
    decreases events.len(),
{
    if events.len() == 0 {
        0
    } else {
        events_read(events.drop_last()) + if events.last() is Event {
            1nat
        } else {
            0
        }
    }
}

/// How many events the engine has taken.
pub open spec fn events_processed(f: Feed, events: Seq<FeedEvent>) -> nat
    decreases events.len(),
{
    if events.len() == 0 {
        0
    } else {
        let before = events.drop_last();
        events_processed(f, before) + if run(f, before).phase is Processing && events.last()
            is Done {
            1nat
        } else {
            0
        }
    }
}

/// How many estimates were drained.
pub open spec fn drained(events: Seq<FeedEvent>) -> nat
    decreases events.len(),
{
    if events.len() == 0 {
        0
    } else {
        drained(events.drop_last()) + match events.last() {
            FeedEvent::Drained(n) => n as nat,
            _ => 0,
        }
    }
}

/// Whether the event that was read last is still to be taken by the engine.
pub open spec fn is_pending(f: Feed) -> bool {
    f.phase is Processing || f.phase == (FeedPhase::Draining { at_end: false })
}

/// The engine takes every event exactly once, however often it is full before
/// it does: what was read is what it has taken and at most the one event that
/// is being retried. Nothing that was drained goes uncounted.
pub proof fn law_every_event_is_fed_once(f: Feed, events: Seq<FeedEvent>)
    requires
        f == (Feed { engine: true, estimates: 0, phase: FeedPhase::Reading }),
        is_run(f, events),
    ensures
        run(f, events).wf(),
        run(f, events).engine,
        run(f, events).estimates == drained(events),
        !(run(f, events).phase is Finished) ==> events_read(events) == events_processed(f, events)
            + if is_pending(run(f, events)) {
            1nat
        } else {
            0
        },
    decreases events.len(),
{
    if events.len() > 0 {
        law_every_event_is_fed_once(f, events.drop_last());
        let before = run(f, events.drop_last());
        assert(run(f, events) == before.stepped(events.last()).0);
    }
}

/// Only a trace whose events were all taken, and whose open windows were
/// ended, is reported on.
pub proof fn law_reports_are_complete(f: Feed, e: FeedEvent)
    requires
        f.wf(),
        f.expects(e),
        f.engine,
    ensures
        f.stepped(e).1 is Report ==> f.phase is Finishing && e is Done,
        f.stepped(e).0.phase is Finishing ==> (f.phase is Reading && e is EndOfTrace) || f.phase
            == (FeedPhase::Draining { at_end: true }),
{
}

// ---------------------------------------------------------------------------
// Shards
// ---------------------------------------------------------------------------

/// The shards of events that take turns.
pub open spec fn turns_of(events: nat, shards: nat) -> Seq<usize> {
    Seq::new(events, |i: int| (i % shards as int) as usize)
}

/// The shards of events that take turns.
pub fn turns(events: usize, shards: usize) -> (r: Vec<usize>)
    requires
        shards > 0,
    ensures
        r@ == turns_of(events as nat, shards as nat),
{
    let mut out: Vec<usize> = Vec::new();
    for i in 0..events
        invariant
            shards > 0,
            out@ =~= turns_of(i as nat, shards as nat),
    {
        out.push(i % shards);
    }
    out
}

/// The events that go to a shard, in their order.
pub open spec fn shard_events(es: Seq<FlowEvent>, places: Seq<usize>, shard: int) -> Seq<FlowEvent>
    decreases es.len(),
{
    if es.len() == 0 {
        Seq::empty()
    } else {
        let before = shard_events(es.drop_last(), places.drop_last(), shard);
        if places.last() == shard {
            before.push(es.last())
        } else {
            before
        }
    }
}

/// Distribute events over shards; `places` names the shard of every event.
pub fn partition(events: &[FlowEvent], places: &[usize], shards: usize) -> (r: Vec<Vec<FlowEvent>>)
    requires
        places@.len() == events@.len(),
        forall|i: int| 0 <= i < places@.len() ==> #[trigger] places@[i] < shards,
    ensures
        r@.len() == shards,
        forall|s: int|
            0 <= s < shards ==> (#[trigger] r@[s])@ == shard_events(events@, places@, s),
{
    let mut out: Vec<Vec<FlowEvent>> = Vec::new();
    for s in 0..shards
        invariant
            out@.len() == s,
            forall|k: int| 0 <= k < s ==> (#[trigger] out@[k])@ == Seq::<FlowEvent>::empty(),
    {
        out.push(Vec::new());
    }
    let mut i: usize = 0;
    proof {
        assert(events@.take(0) =~= Seq::empty());
    }
    while i < events.len()
        invariant
            i <= events@.len(),
            places@.len() == events@.len(),
            forall|k: int| 0 <= k < places@.len() ==> #[trigger] places@[k] < shards,
            out@.len() == shards,
            forall|s: int|
                0 <= s < shards ==> (#[trigger] out@[s])@ == shard_events(
                    events@.take(i as int),
                    places@.take(i as int),
                    s,
                ),
        decreases events@.len() - i,
    {
        let place: usize = places[i];
        let ghost before = out@;
        let mut shard: Vec<FlowEvent> = Vec::new();
        std::mem::swap(&mut shard, &mut out[place]);
        shard.push(events[i]);
        out[place] = shard;
        proof {
            assert(events@.take(i + 1).drop_last() =~= events@.take(i as int));
            assert(places@.take(i + 1).drop_last() =~= places@.take(i as int));
            assert forall|s: int| 0 <= s < shards implies (#[trigger] out@[s])@ == shard_events(
                events@.take(i + 1),
                places@.take(i + 1),
                s,
            ) by {
                assert(before[s]@ == shard_events(events@.take(i as int), places@.take(i as int), s));
            }
        }
        i += 1;
    }
    proof {
        assert(events@.take(events@.len() as int) =~= events@);
        assert(places@.take(events@.len() as int) =~= places@);
    }
    out
}

/// How many events the first `shards` shards get together.
pub open spec fn shared_out(es: Seq<FlowEvent>, places: Seq<usize>, shards: nat) -> nat
    decreases shards,
{
    if shards == 0 {
        0
    } else {
        shared_out(es, places, (shards - 1) as nat) + shard_events(es, places, shards - 1).len()
    }
}

proof fn lemma_one_more(es: Seq<FlowEvent>, places: Seq<usize>, shards: nat)
    requires
        es.len() > 0,
        places.len() == es.len(),
    ensures
        shared_out(es, places, shards) == shared_out(es.drop_last(), places.drop_last(), shards)
            + if places.last() < shards {
            1nat
        } else {
            0
        },
    decreases shards,
{
    if shards > 0 {
        lemma_one_more(es, places, (shards - 1) as nat);
    }
}

/// No event is lost and none is counted twice when events are distributed.
pub proof fn law_shards_partition_the_events(es: Seq<FlowEvent>, places: Seq<usize>, shards: nat)
    requires
        places.len() == es.len(),
        forall|i: int| 0 <= i < places.len() ==> #[trigger] places[i] < shards,
    ensures
        shared_out(es, places, shards) == es.len(),
    decreases es.len(),
{
    if es.len() == 0 {
        lemma_nothing_to_share(es, places, shards);
    } else {
        assert(places.last() == places[places.len() - 1]);
        assert forall|i: int| 0 <= i < places.drop_last().len() implies #[trigger] places.drop_last()[i]
            < shards by {
            assert(places.drop_last()[i] == places[i]);
        }
        law_shards_partition_the_events(es.drop_last(), places.drop_last(), shards);
        lemma_one_more(es, places, shards);
    }
}

proof fn lemma_nothing_to_share(es: Seq<FlowEvent>, places: Seq<usize>, shards: nat)
    requires
        es.len() == 0,
    ensures
        shared_out(es, places, shards) == 0,
    decreases shards,
{
    if shards > 0 {
        lemma_nothing_to_share(es, places, (shards - 1) as nat);
    }
}

proof fn lemma_turn_count(es: Seq<FlowEvent>, shards: nat, s: int)
    requires
        0 < shards <= usize::MAX,
        0 <= s < shards,
    ensures
        shard_events(es, turns_of(es.len(), shards), s).len() == es.len() as int / shards as int
            + if s < es.len() as int % shards as int {
            1int
        } else {
            0
        },
    decreases es.len(),
{
    if es.len() == 0 {
        vstd::arithmetic::div_mod::lemma_div_basics(shards as int);
        vstd::arithmetic::div_mod::lemma_small_mod(0, shards);
    } else {
        let n = es.len() - 1;
        let m = shards as int;
        lemma_turn_count(es.drop_last(), shards, s);
        assert(turns_of(es.len(), shards).drop_last() =~= turns_of(n as nat, shards));
        assert(turns_of(es.len(), shards).last() == n % m);
        vstd::arithmetic::div_mod::lemma_fundamental_div_mod(n, m);
        vstd::arithmetic::div_mod::lemma_mod_bound(n, m);
        let q = n / m;
        let r = n % m;
        if r + 1 < m {
            assert(n + 1 == q * m + (r + 1)) by (nonlinear_arith)
                requires
                    n == m * q + r,
            ;
            vstd::arithmetic::div_mod::lemma_fundamental_div_mod_converse(n + 1, m, q, r + 1);
        } else {
            assert(n + 1 == (q + 1) * m + 0) by (nonlinear_arith)
                requires
                    n == m * q + r,
                    r + 1 == m,
            ;
            vstd::arithmetic::div_mod::lemma_fundamental_div_mod_converse(n + 1, m, q + 1, 0);
        }
    }
}

/// Taking turns is even: two shards never differ by more than one event.
pub proof fn law_turns_are_even(es: Seq<FlowEvent>, shards: nat, a: int, b: int)
    requires
        0 < shards <= usize::MAX,
        0 <= a < shards,
        0 <= b < shards,
    ensures
        shard_events(es, turns_of(es.len(), shards), a).len() <= shard_events(
            es,
            turns_of(es.len(), shards),
            b,
        ).len() + 1,
{
    lemma_turn_count(es, shards, a);
    lemma_turn_count(es, shards, b);
}

} // verus!
