//! Capture over several sockets of one fan-out group: every socket joins the
//! group before any reader starts, and every reader that starts is joined.

use vstd::prelude::*;
use vstd::string::*;

use crate::text::{dec, push_decimal};

verus! {

/// The fan-out group that a socket asks for.
#[derive(Debug, Clone, Copy, PartialEq, Eq, Structural)]
pub enum FanoutGroup {
    /// Let the kernel pick a group that is not in use.
    AllocateUnique,
    Join(u16),
}

/// Where the capture stands.
#[derive(Debug, Clone, Copy, PartialEq, Eq, Structural)]
pub enum FanoutPhase {
    /// The socket of a lane is being opened.
    Opening { lane: usize, group: Option<u16> },
    /// The first socket is asked for the group that the kernel picked.
    Asking,
    /// Every socket has joined; the shape of the rings is being recorded.
    Announcing,
    /// The reader of a lane is being started; those before it run.
    Starting { lane: usize },
    /// A reader did not start; those before it are being told to stop.
    Aborting { started: usize },
    /// Readers are being joined because the one after them did not start.
    Recalling { lane: usize, started: usize },
    /// All readers run.
    Waiting,
    /// A reader has ended; the others are being told to stop.
    Stopping,
    /// Readers are being joined. The first that panicked is remembered.
    Joining { lane: usize, panicked: Option<usize> },
    /// Every reader has ended without a report.
    Silent,
    Finished,
}

/// What comes of an action.
#[derive(Debug, Clone, Copy, PartialEq, Eq, Structural)]
pub enum FanoutEvent {
    Done,
    Failed,
    /// The first socket is in this group.
    Group(u16),
    /// The joined reader had panicked.
    Panicked,
}

/// Why the capture cannot run.
#[derive(Debug, Clone, Copy, PartialEq, Eq, Structural)]
pub enum FanoutFault {
    /// The socket of a lane cannot be opened.
    Open { lane: usize, group: Option<u16> },
    /// The group of the first socket cannot be learned.
    Group,
    /// The reader of a lane cannot be started.
    Spawn { lane: usize },
    /// No reader reported how it ended.
    Silent,
}

/// What to do next.
#[derive(Debug, Clone, Copy, PartialEq, Eq, Structural)]
pub enum FanoutAction {
    Open { lane: usize, group: FanoutGroup },
    AskGroup,
    /// Record the rings and say which group is in use.
    Announce { group: u16 },
    Start { lane: usize },
    /// Tell the readers to stop.
    Stop,
    Join { lane: usize },
    /// Wait until a reader reports how it ended.
    WaitReport,
    /// Put the reports together.
    Conclude { panicked: Option<usize> },
    Fail(FanoutFault),
}

impl FanoutFault {
    /// The fault in words. What the group could not be learned for stands as
    /// it is.
    pub open spec fn text(self, lanes: nat, detail: Seq<char>) -> Seq<char> {
        match self {
            FanoutFault::Open { lane, group } => "cannot create AF_PACKET fan-out lane "@ + dec(
                lane as nat,
            ) + "/"@ + dec(lanes) + (match group {
                Some(g) => " in group "@ + dec(g as nat),
                None => Seq::empty(),
            }) + ": "@ + detail,
            FanoutFault::Group => detail,
            FanoutFault::Spawn { lane } => "cannot spawn AF_PACKET fan-out lane "@ + dec(
                lane as nat,
            ) + ": "@ + detail,
            FanoutFault::Silent => "all AF_PACKET fan-out lanes ended without reporting status"@,
        }
    }

    /// The fault in words.
    pub fn describe(self, lanes: usize, detail: &str) -> (r: String)
        ensures
            r@ == self.text(lanes as nat, detail@),
    {
        match self {
            FanoutFault::Open { lane, group } => {
                let mut m = "cannot create AF_PACKET fan-out lane ".to_owned();
                push_decimal(&mut m, lane as u64);
                m.append("/");
                push_decimal(&mut m, lanes as u64);
                if let Some(g) = group {
                    m.append(" in group ");
                    push_decimal(&mut m, g as u64);
                }
                m.append(": ");
                m.append(detail);
                assert(m@ =~= self.text(lanes as nat, detail@));
                m
            },
            FanoutFault::Group => detail.to_owned(),
            FanoutFault::Spawn { lane } => {
                let mut m = "cannot spawn AF_PACKET fan-out lane ".to_owned();
                push_decimal(&mut m, lane as u64);
                m.append(": ");
                m.append(detail);
                m
            },
            FanoutFault::Silent =>
                "all AF_PACKET fan-out lanes ended without reporting status".to_owned(),
        }
    }
}

/// A capture over several sockets.
#[derive(Debug, Clone, Copy, PartialEq, Eq, Structural)]
pub struct Fanout {
    /// How many sockets there are, each with a reader.
    pub lanes: usize,
    /// The group to join, or zero for one of the kernel's choice.
    pub configured: u16,
    pub phase: FanoutPhase,
}

impl Fanout {
    /// Lanes are in range, and the group is known once the first socket has
    /// joined it.
    pub open spec fn wf(self) -> bool {
        &&& self.lanes > 0
        &&& match self.phase {
            FanoutPhase::Opening { lane, group } => {
                &&& lane < self.lanes
                &&& lane > 0 ==> group is Some
                &&& self.configured != 0 ==> group == Some(self.configured)
                &&& self.configured == 0 && lane == 0 ==> group is None
            },
            FanoutPhase::Asking => self.configured == 0,
            FanoutPhase::Starting { lane } => lane < self.lanes,
            FanoutPhase::Aborting { started } => started < self.lanes,
            FanoutPhase::Recalling { lane, started } => lane < started < self.lanes,
            FanoutPhase::Joining { lane, panicked } => {
                &&& lane < self.lanes
                &&& panicked matches Some(p) ==> p < lane
            },
            _ => true,
        }
    }

    /// Whether an event can come in this phase.
    pub open spec fn expects(self, e: FanoutEvent) -> bool {
        match self.phase {
            FanoutPhase::Opening { .. } | FanoutPhase::Starting { .. } | FanoutPhase::Waiting => e
                is Done || e is Failed,
            FanoutPhase::Asking => e is Group || e is Failed,
            FanoutPhase::Announcing | FanoutPhase::Aborting { .. } | FanoutPhase::Stopping => e
                is Done,
            FanoutPhase::Recalling { .. } | FanoutPhase::Joining { .. } => e is Done || e
                is Panicked,
            FanoutPhase::Silent | FanoutPhase::Finished => false,
        }
    }

    /// How many sockets have joined.
    pub open spec fn opened(self) -> int {
        match self.phase {
            FanoutPhase::Opening { lane, .. } => lane as int,
            FanoutPhase::Asking => 1,
            _ => self.lanes as int,
        }
    }

    /// How many readers were started and are not joined.
    pub open spec fn running(self) -> int {
        match self.phase {
            FanoutPhase::Starting { lane } => lane as int,
            FanoutPhase::Aborting { started } => started as int,
            FanoutPhase::Recalling { lane, started } => started - lane,
            FanoutPhase::Waiting | FanoutPhase::Stopping | FanoutPhase::Silent => self.lanes
                as int,
            FanoutPhase::Joining { lane, .. } => self.lanes - lane,
            _ => 0,
        }
    }

    pub open spec fn at(self, phase: FanoutPhase) -> Fanout {
        Fanout { phase, ..self }
    }

    pub open spec fn failed(self, fault: FanoutFault) -> (Fanout, FanoutAction) {
        (self.at(FanoutPhase::Finished), FanoutAction::Fail(fault))
    }

    /// With `lane` sockets in the group, the next one is opened, or the rings
    /// are announced.
    pub open spec fn with_opened(self, lane: usize, group: u16) -> (Fanout, FanoutAction) {
        if lane < self.lanes {
            (
                self.at(FanoutPhase::Opening { lane, group: Some(group) }),
                FanoutAction::Open { lane, group: FanoutGroup::Join(group) },
            )
        } else {
            (self.at(FanoutPhase::Announcing), FanoutAction::Announce { group })
        }
    }

    /// What an event leads to.
    pub open spec fn stepped(self, e: FanoutEvent) -> (Fanout, FanoutAction) {
        match self.phase {
            FanoutPhase::Opening { lane, group } => if e is Failed {
                self.failed(
                    FanoutFault::Open {
                        lane,
                        group: if lane == 0 {
                            None
                        } else {
                            group
                        },
                    },
                )
            } else {
                match group {
                    Some(g) => self.with_opened((lane + 1) as usize, g),
                    None => (self.at(FanoutPhase::Asking), FanoutAction::AskGroup),
                }
            },
            FanoutPhase::Asking => match e {
                FanoutEvent::Group(g) => self.with_opened(1, g),
                _ => self.failed(FanoutFault::Group),
            },
            FanoutPhase::Announcing => (
                self.at(FanoutPhase::Starting { lane: 0 }),
                FanoutAction::Start { lane: 0 },
            ),
            FanoutPhase::Starting { lane } => if e is Failed {
                (self.at(FanoutPhase::Aborting { started: lane }), FanoutAction::Stop)
            } else if lane + 1 < self.lanes {
                (
                    self.at(FanoutPhase::Starting { lane: (lane + 1) as usize }),
                    FanoutAction::Start { lane: (lane + 1) as usize },
                )
            } else {
                (self.at(FanoutPhase::Waiting), FanoutAction::WaitReport)
            },
            FanoutPhase::Aborting { started } => if started == 0 {
                self.failed(FanoutFault::Spawn { lane: started })
            } else {
                (
                    self.at(FanoutPhase::Recalling { lane: 0, started }),
                    FanoutAction::Join { lane: 0 },
                )
            },
            FanoutPhase::Recalling { lane, started } => if lane + 1 < started {
                (
                    self.at(FanoutPhase::Recalling { lane: (lane + 1) as usize, started }),
                    FanoutAction::Join { lane: (lane + 1) as usize },
                )
            } else {
                self.failed(FanoutFault::Spawn { lane: started })
            },
            FanoutPhase::Waiting => if e is Failed {
                (self.at(FanoutPhase::Silent), FanoutAction::Fail(FanoutFault::Silent))
            } else {
                (self.at(FanoutPhase::Stopping), FanoutAction::Stop)
            },
            FanoutPhase::Stopping => (
                self.at(FanoutPhase::Joining { lane: 0, panicked: None }),
                FanoutAction::Join { lane: 0 },
            ),
            FanoutPhase::Joining { lane, panicked } => {
                let first = if e is Panicked && panicked is None {
                    Some(lane)
                } else {
                    panicked
                };
                if lane + 1 < self.lanes {
                    (
                        self.at(
                            FanoutPhase::Joining { lane: (lane + 1) as usize, panicked: first },
                        ),
                        FanoutAction::Join { lane: (lane + 1) as usize },
                    )
                } else {
                    (self.at(FanoutPhase::Finished), FanoutAction::Conclude { panicked: first })
                }
            },
            FanoutPhase::Silent | FanoutPhase::Finished => (
                self,
                FanoutAction::Conclude { panicked: None },
            ),
        }
    }

    /// A capture over `lanes` sockets, and its first action.
    pub fn new(lanes: usize, configured: u16) -> (r: (Self, FanoutAction))
        requires
            lanes > 0,
        ensures
            r.0.wf(),
            r.0.lanes == lanes,
            r.0.configured == configured,
            r.0.opened() == 0,
            r.0.running() == 0,
            r.0.phase is Opening,
            r.1 == (FanoutAction::Open {
                lane: 0,
                group: if configured == 0 {
                    FanoutGroup::AllocateUnique
                } else {
                    FanoutGroup::Join(configured)
                },
            }),
    {
        if configured == 0 {
            let f = Fanout {
                lanes,
                configured,
                phase: FanoutPhase::Opening { lane: 0, group: None },
            };
            (f, FanoutAction::Open { lane: 0, group: FanoutGroup::AllocateUnique })
        } else {
            let f = Fanout {
                lanes,
                configured,
                phase: FanoutPhase::Opening { lane: 0, group: Some(configured) },
            };
            (f, FanoutAction::Open { lane: 0, group: FanoutGroup::Join(configured) })
        }
    }

    /// Whether an event can come in this phase.
    pub fn accepts(&self, e: FanoutEvent) -> (r: bool)
        ensures
            r == self.expects(e),
    {
        match self.phase {
            FanoutPhase::Opening { .. } | FanoutPhase::Starting { .. } | FanoutPhase::Waiting =>
                matches!(e, FanoutEvent::Done) || matches!(e, FanoutEvent::Failed),
            FanoutPhase::Asking => matches!(e, FanoutEvent::Group(_))
                || matches!(e, FanoutEvent::Failed),
            FanoutPhase::Announcing | FanoutPhase::Aborting { .. } | FanoutPhase::Stopping =>
                matches!(e, FanoutEvent::Done),
            FanoutPhase::Recalling { .. } | FanoutPhase::Joining { .. } =>
                matches!(e, FanoutEvent::Done) || matches!(e, FanoutEvent::Panicked),
            FanoutPhase::Silent | FanoutPhase::Finished => false,
        }
    }

    fn go(self, phase: FanoutPhase, action: FanoutAction) -> (r: (Self, FanoutAction))
        ensures
            r == (self.at(phase), action),
    {
        (Fanout { lanes: self.lanes, configured: self.configured, phase }, action)
    }

    fn fail(self, fault: FanoutFault) -> (r: (Self, FanoutAction))
        ensures
            r == self.failed(fault),
    {
        self.go(FanoutPhase::Finished, FanoutAction::Fail(fault))
    }

    fn open_next(self, lane: usize, group: u16) -> (r: (Self, FanoutAction))
        ensures
            r == self.with_opened(lane, group),
    {
        if lane < self.lanes {
            self.go(
                FanoutPhase::Opening { lane, group: Some(group) },
                FanoutAction::Open { lane, group: FanoutGroup::Join(group) },
            )
        } else {
            self.go(FanoutPhase::Announcing, FanoutAction::Announce { group })
        }
    }

    /// Go on after an action.
    pub fn step(self, e: FanoutEvent) -> (r: (Self, FanoutAction))
        requires
            self.wf(),
            self.expects(e),
        ensures
            r == self.stepped(e),
            r.0.wf(),
    {
        let failed = matches!(e, FanoutEvent::Failed);
        match self.phase {
            FanoutPhase::Opening { lane, group } => {
                if failed {
                    let named = if lane == 0 {
                        None
                    } else {
                        group
                    };
                    return self.fail(FanoutFault::Open { lane, group: named });
                }
                match group {
                    Some(g) => self.open_next(lane + 1, g),
                    None => self.go(FanoutPhase::Asking, FanoutAction::AskGroup),
                }
            },
            FanoutPhase::Asking => match e {
                FanoutEvent::Group(g) => self.open_next(1, g),
                _ => self.fail(FanoutFault::Group),
            },
            FanoutPhase::Announcing => self.go(
                FanoutPhase::Starting { lane: 0 },
                FanoutAction::Start { lane: 0 },
            ),
            FanoutPhase::Starting { lane } => if failed {
                self.go(FanoutPhase::Aborting { started: lane }, FanoutAction::Stop)
            } else if lane + 1 < self.lanes {
                self.go(
                    FanoutPhase::Starting { lane: lane + 1 },
                    FanoutAction::Start { lane: lane + 1 },
                )
            } else {
                self.go(FanoutPhase::Waiting, FanoutAction::WaitReport)
            },
            FanoutPhase::Aborting { started } => if started == 0 {
                self.fail(FanoutFault::Spawn { lane: started })
            } else {
                self.go(
                    FanoutPhase::Recalling { lane: 0, started },
                    FanoutAction::Join { lane: 0 },
                )
            },
            FanoutPhase::Recalling { lane, started } => if lane + 1 < started {
                self.go(
                    FanoutPhase::Recalling { lane: lane + 1, started },
                    FanoutAction::Join { lane: lane + 1 },
                )
            } else {
                self.fail(FanoutFault::Spawn { lane: started })
            },
            FanoutPhase::Waiting => if failed {
                self.go(FanoutPhase::Silent, FanoutAction::Fail(FanoutFault::Silent))
            } else {
                self.go(FanoutPhase::Stopping, FanoutAction::Stop)
            },
            FanoutPhase::Stopping => self.go(
                FanoutPhase::Joining { lane: 0, panicked: None },
                FanoutAction::Join { lane: 0 },
            ),
            FanoutPhase::Joining { lane, panicked } => {
                let first = if matches!(e, FanoutEvent::Panicked) && panicked.is_none() {
                    Some(lane)
                } else {
                    panicked
                };
                if lane + 1 < self.lanes {
                    self.go(
                        FanoutPhase::Joining { lane: lane + 1, panicked: first },
                        FanoutAction::Join { lane: lane + 1 },
                    )
                } else {
                    self.go(FanoutPhase::Finished, FanoutAction::Conclude { panicked: first })
                }
            },
            FanoutPhase::Silent | FanoutPhase::Finished => self.go(
                self.phase,
                FanoutAction::Conclude { panicked: None },
            ),
        }
    }
}

// ---------------------------------------------------------------------------
// Laws
// ---------------------------------------------------------------------------

/// The capture after events, first to last.
pub open spec fn run(f: Fanout, events: Seq<FanoutEvent>) -> Fanout
    decreases events.len(),
{
    if events.len() == 0 {
        f
    } else {
        run(f, events.drop_last()).stepped(events.last()).0
    }
}

/// Every event can come where it comes.
pub open spec fn is_run(f: Fanout, events: Seq<FanoutEvent>) -> bool
    decreases events.len(),
{
    events.len() > 0 ==> is_run(f, events.drop_last()) && run(f, events.drop_last()).expects(
        events.last(),
    )
}

/// How many sockets were opened.
pub open spec fn sockets(f: Fanout, events: Seq<FanoutEvent>) -> nat
    decreases events.len(),
{
    if events.len() == 0 {
        0
    } else {
        let before = events.drop_last();
        sockets(f, before) + if run(f, before).phase is Opening && events.last() is Done {
            1nat
        } else {
            0
        }
    }
}

/// How many readers were started.
pub open spec fn started(f: Fanout, events: Seq<FanoutEvent>) -> nat
    decreases events.len(),
{
    if events.len() == 0 {
        0
    } else {
        let before = events.drop_last();
        started(f, before) + if run(f, before).phase is Starting && events.last() is Done {
            1nat
        } else {
            0
        }
    }
}

/// How many readers were joined.
pub open spec fn joined(f: Fanout, events: Seq<FanoutEvent>) -> nat
    decreases events.len(),
{
    if events.len() == 0 {
        0
    } else {
        let before = events.drop_last();
        joined(f, before) + match run(f, before).phase {
            FanoutPhase::Recalling { .. } | FanoutPhase::Joining { .. } => 1nat,
            _ => 0,
        }
    }
}

/// No reader starts, or is being started, unless every socket has joined: a
/// capture never runs with fewer lanes.
pub proof fn law_sockets_join_before_readers_start(f: Fanout, events: Seq<FanoutEvent>)
    requires
        f.wf(),
        f.phase is Opening,
        f.opened() == 0,
        is_run(f, events),
    ensures
        run(f, events).wf(),
        run(f, events).lanes == f.lanes,
        started(f, events) > 0 || run(f, events).phase is Starting ==> sockets(f, events)
            == f.lanes,
        !(run(f, events).phase is Finished) ==> sockets(f, events) == run(f, events).opened(),
    decreases events.len(),
{
    if events.len() > 0 {
        law_sockets_join_before_readers_start(f, events.drop_last());
        let before = run(f, events.drop_last());
        assert(run(f, events) == before.stepped(events.last()).0);
    }
}

/// Readers that were started are those that were joined and those that still
/// run; at the end every one was joined, whether the capture ran or not.
pub proof fn law_started_readers_are_joined(f: Fanout, events: Seq<FanoutEvent>)
    requires
        f.wf(),
        f.phase is Opening,
        is_run(f, events),
    ensures
        run(f, events).wf(),
        started(f, events) == joined(f, events) + run(f, events).running(),
        run(f, events).phase is Finished ==> started(f, events) == joined(f, events),
    decreases events.len(),
{
    if events.len() > 0 {
        law_started_readers_are_joined(f, events.drop_last());
        let before = run(f, events.drop_last());
        assert(run(f, events) == before.stepped(events.last()).0);
    }
}

/// All sockets are opened in one group: the one that was configured, or the
/// one that the kernel picked for the first socket.
pub proof fn law_lanes_share_one_group(f: Fanout, e: FanoutEvent)
    requires
        f.wf(),
        f.expects(e),
    ensures
        f.stepped(e).1 matches FanoutAction::Open { lane, group } ==> {
            &&& 0 < lane < f.lanes
            &&& group is Join
            &&& f.configured != 0 ==> group == FanoutGroup::Join(f.configured)
            &&& match f.phase {
                FanoutPhase::Opening { group: g, .. } => g is Some && group == FanoutGroup::Join(
                    g->0,
                ),
                _ => f.phase is Asking && e == FanoutEvent::Group(group->Join_0),
            }
        },
{
}

} // verus!
