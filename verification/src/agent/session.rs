//! A run of the agent from start to end: services start before capture does,
//! capture stops first, and whatever was started is joined.

use vstd::prelude::*;

verus! {

/// Where a run stands.
#[derive(Debug, Clone, Copy, PartialEq, Eq, Structural)]
pub enum SessionPhase {
    OpeningRuntime,
    /// The listener is being bound.
    Binding,
    StartingServer,
    /// The exporter of estimates is being started.
    StartingExporter,
    /// The pusher of snapshots is being started.
    StartingPusher,
    /// The address is being announced.
    Announcing,
    StartingCapture,
    /// The engine runs until its queues are drained.
    Running,
    JoiningCapture,
    /// The source is exhausted: results are served until shutdown.
    Serving,
    /// The agent is being marked as no longer ready.
    Withdrawing,
    /// Services are being told to stop; exporters make a last attempt.
    Stopping,
    JoiningServer,
    JoiningExporter,
    JoiningPusher,
    Finished,
}

/// What comes of an action.
#[derive(Debug, Clone, Copy, PartialEq, Eq, Structural)]
pub enum SessionEvent {
    Done,
    Failed,
    /// Capture was joined; whether everything went well, and whether the
    /// agent is to shut down.
    Captured { ok: bool, shutdown: bool },
}

/// What to do next.
#[derive(Debug, Clone, Copy, PartialEq, Eq, Structural)]
pub enum SessionAction {
    OpenRuntime,
    Bind,
    StartServer,
    StartExporter,
    StartPusher,
    Announce,
    StartCapture,
    RunEngine,
    JoinCapture,
    /// Wait for the shutdown.
    Serve,
    Withdraw,
    StopServices,
    JoinServer,
    JoinExporter,
    JoinPusher,
    Return,
}

/// A run of the agent.
#[derive(Debug, Clone, Copy, PartialEq, Eq, Structural)]
pub struct Session {
    /// Whether estimates are exported.
    pub exports: bool,
    /// Whether snapshots are pushed.
    pub pushes: bool,
    /// Which services run.
    pub server: bool,
    pub exporter: bool,
    pub pusher: bool,
    /// Whether the capture thread runs.
    pub capture: bool,
    pub phase: SessionPhase,
}

impl Session {
    /// What runs in a phase.
    pub open spec fn wf(self) -> bool {
        &&& self.exporter ==> self.exports
        &&& self.pusher ==> self.pushes
        &&& match self.phase {
            SessionPhase::OpeningRuntime | SessionPhase::Binding | SessionPhase::StartingServer
            | SessionPhase::Finished => !self.server && !self.exporter && !self.pusher
                && !self.capture,
            SessionPhase::StartingExporter => self.exports && self.server && !self.exporter
                && !self.pusher && !self.capture,
            SessionPhase::StartingPusher => self.pushes && self.server && self.exporter
                == self.exports && !self.pusher && !self.capture,
            SessionPhase::Announcing | SessionPhase::StartingCapture | SessionPhase::Serving
            | SessionPhase::Withdrawing => self.all_services() && !self.capture,
            SessionPhase::Running | SessionPhase::JoiningCapture => self.all_services()
                && self.capture,
            SessionPhase::Stopping | SessionPhase::JoiningServer => self.server && !self.capture,
            SessionPhase::JoiningExporter => !self.server && self.exporter && !self.capture,
            SessionPhase::JoiningPusher => !self.server && !self.exporter && self.pusher
                && !self.capture,
        }
    }

    /// Every service that is asked for runs.
    pub open spec fn all_services(self) -> bool {
        self.server && self.exporter == self.exports && self.pusher == self.pushes
    }

    /// Whether an event can come in this phase.
    pub open spec fn expects(self, e: SessionEvent) -> bool {
        match self.phase {
            SessionPhase::OpeningRuntime | SessionPhase::Binding | SessionPhase::StartingServer
            | SessionPhase::StartingExporter | SessionPhase::StartingPusher
            | SessionPhase::StartingCapture => e is Done || e is Failed,
            SessionPhase::JoiningCapture => e is Captured,
            SessionPhase::Finished => false,
            _ => e is Done,
        }
    }

    pub open spec fn at(self, phase: SessionPhase) -> Session {
        Session { phase, ..self }
    }

    pub open spec fn ended(self) -> (Session, SessionAction) {
        (self.at(SessionPhase::Finished), SessionAction::Return)
    }

    pub open spec fn stopped(self) -> (Session, SessionAction) {
        (self.at(SessionPhase::Stopping), SessionAction::StopServices)
    }

    /// With the server up, and the exporter if there is one.
    pub open spec fn with_exporter(self) -> (Session, SessionAction) {
        if self.pushes {
            (self.at(SessionPhase::StartingPusher), SessionAction::StartPusher)
        } else {
            (self.at(SessionPhase::Announcing), SessionAction::Announce)
        }
    }

    /// With the server up.
    pub open spec fn with_server(self) -> (Session, SessionAction) {
        if self.exports {
            (self.at(SessionPhase::StartingExporter), SessionAction::StartExporter)
        } else {
            self.with_exporter()
        }
    }

    /// With the server and the exporter down.
    pub open spec fn without_exporter(self) -> (Session, SessionAction) {
        if self.pusher {
            (self.at(SessionPhase::JoiningPusher), SessionAction::JoinPusher)
        } else {
            self.ended()
        }
    }

    /// With the server down.
    pub open spec fn without_server(self) -> (Session, SessionAction) {
        if self.exporter {
            (self.at(SessionPhase::JoiningExporter), SessionAction::JoinExporter)
        } else {
            self.without_exporter()
        }
    }

    /// What an event leads to.
    pub open spec fn stepped(self, e: SessionEvent) -> (Session, SessionAction) {
        match self.phase {
            SessionPhase::OpeningRuntime => if e is Failed {
                self.ended()
            } else {
                (self.at(SessionPhase::Binding), SessionAction::Bind)
            },
            SessionPhase::Binding => if e is Failed {
                self.ended()
            } else {
                (self.at(SessionPhase::StartingServer), SessionAction::StartServer)
            },
            SessionPhase::StartingServer => if e is Failed {
                self.ended()
            } else {
                (Session { server: true, ..self }).with_server()
            },
            SessionPhase::StartingExporter => if e is Failed {
                self.stopped()
            } else {
                (Session { exporter: true, ..self }).with_exporter()
            },
            SessionPhase::StartingPusher => if e is Failed {
                self.stopped()
            } else {
                ((Session { pusher: true, ..self }).at(SessionPhase::Announcing), SessionAction::Announce)
            },
            SessionPhase::Announcing => (
                self.at(SessionPhase::StartingCapture),
                SessionAction::StartCapture,
            ),
            SessionPhase::StartingCapture => if e is Failed {
                self.stopped()
            } else {
                (
                    (Session { capture: true, ..self }).at(SessionPhase::Running),
                    SessionAction::RunEngine,
                )
            },
            SessionPhase::Running => (
                self.at(SessionPhase::JoiningCapture),
                SessionAction::JoinCapture,
            ),
            SessionPhase::JoiningCapture => {
                let joined = Session { capture: false, ..self };
                if e == (SessionEvent::Captured { ok: true, shutdown: false }) {
                    (joined.at(SessionPhase::Serving), SessionAction::Serve)
                } else {
                    (joined.at(SessionPhase::Withdrawing), SessionAction::Withdraw)
                }
            },
            SessionPhase::Serving => (
                self.at(SessionPhase::Withdrawing),
                SessionAction::Withdraw,
            ),
            SessionPhase::Withdrawing => self.stopped(),
            SessionPhase::Stopping => (
                self.at(SessionPhase::JoiningServer),
                SessionAction::JoinServer,
            ),
            SessionPhase::JoiningServer => (Session { server: false, ..self }).without_server(),
            SessionPhase::JoiningExporter => (Session {
                exporter: false,
                ..self
            }).without_exporter(),
            SessionPhase::JoiningPusher => (Session { pusher: false, ..self }).ended(),
            SessionPhase::Finished => (self, SessionAction::Return),
        }
    }

    /// A run at its start; its first action is to open the runtime.
    pub fn new(exports: bool, pushes: bool) -> (r: Self)
        ensures
            r == (Session {
                exports,
                pushes,
                server: false,
                exporter: false,
                pusher: false,
                capture: false,
                phase: SessionPhase::OpeningRuntime,
            }),
            r.wf(),
    {
        Session {
            exports,
            pushes,
            server: false,
            exporter: false,
            pusher: false,
            capture: false,
            phase: SessionPhase::OpeningRuntime,
        }
    }

    /// Whether an event can come in this phase.
    pub fn accepts(&self, e: SessionEvent) -> (r: bool)
        ensures
            r == self.expects(e),
    {
        match self.phase {
            SessionPhase::OpeningRuntime | SessionPhase::Binding | SessionPhase::StartingServer
            | SessionPhase::StartingExporter | SessionPhase::StartingPusher
            | SessionPhase::StartingCapture => matches!(e, SessionEvent::Done)
                || matches!(e, SessionEvent::Failed),
            SessionPhase::JoiningCapture => matches!(e, SessionEvent::Captured { .. }),
            SessionPhase::Finished => false,
            _ => matches!(e, SessionEvent::Done),
        }
    }

    fn go(self, phase: SessionPhase, action: SessionAction) -> (r: (Self, SessionAction))
        ensures
            r == (self.at(phase), action),
    {
        let mut next = self;
        next.phase = phase;
        (next, action)
    }

    fn start_exporter(self) -> (r: (Self, SessionAction))
        ensures
            r == self.with_server(),
    {
        if self.exports {
            self.go(SessionPhase::StartingExporter, SessionAction::StartExporter)
        } else {
            self.start_pusher()
        }
    }

    fn start_pusher(self) -> (r: (Self, SessionAction))
        ensures
            r == self.with_exporter(),
    {
        if self.pushes {
            self.go(SessionPhase::StartingPusher, SessionAction::StartPusher)
        } else {
            self.go(SessionPhase::Announcing, SessionAction::Announce)
        }
    }

    fn join_exporter(self) -> (r: (Self, SessionAction))
        ensures
            r == self.without_server(),
    {
        if self.exporter {
            self.go(SessionPhase::JoiningExporter, SessionAction::JoinExporter)
        } else {
            self.join_pusher()
        }
    }

    fn join_pusher(self) -> (r: (Self, SessionAction))
        ensures
            r == self.without_exporter(),
    {
        if self.pusher {
            self.go(SessionPhase::JoiningPusher, SessionAction::JoinPusher)
        } else {
            self.go(SessionPhase::Finished, SessionAction::Return)
        }
    }

    /// Go on after an action.
    pub fn step(self, e: SessionEvent) -> (r: (Self, SessionAction))
        requires
            self.wf(),
            self.expects(e),
        ensures
            r == self.stepped(e),
            r.0.wf(),
    {
        let failed = matches!(e, SessionEvent::Failed);
        let mut next = self;
        match self.phase {
            SessionPhase::OpeningRuntime => if failed {
                self.go(SessionPhase::Finished, SessionAction::Return)
            } else {
                self.go(SessionPhase::Binding, SessionAction::Bind)
            },
            SessionPhase::Binding => if failed {
                self.go(SessionPhase::Finished, SessionAction::Return)
            } else {
                self.go(SessionPhase::StartingServer, SessionAction::StartServer)
            },
            SessionPhase::StartingServer => if failed {
                self.go(SessionPhase::Finished, SessionAction::Return)
            } else {
                next.server = true;
                next.start_exporter()
            },
            SessionPhase::StartingExporter => if failed {
                self.go(SessionPhase::Stopping, SessionAction::StopServices)
            } else {
                next.exporter = true;
                next.start_pusher()
            },
            SessionPhase::StartingPusher => if failed {
                self.go(SessionPhase::Stopping, SessionAction::StopServices)
            } else {
                next.pusher = true;
                next.go(SessionPhase::Announcing, SessionAction::Announce)
            },
            SessionPhase::Announcing => self.go(
                SessionPhase::StartingCapture,
                SessionAction::StartCapture,
            ),
            SessionPhase::StartingCapture => if failed {
                self.go(SessionPhase::Stopping, SessionAction::StopServices)
            } else {
                next.capture = true;
                next.go(SessionPhase::Running, SessionAction::RunEngine)
            },
            SessionPhase::Running => self.go(
                SessionPhase::JoiningCapture,
                SessionAction::JoinCapture,
            ),
            SessionPhase::JoiningCapture => {
                next.capture = false;
                match e {
                    SessionEvent::Captured { ok: true, shutdown: false } => next.go(
                        SessionPhase::Serving,
                        SessionAction::Serve,
                    ),
                    _ => next.go(SessionPhase::Withdrawing, SessionAction::Withdraw),
                }
            },
            SessionPhase::Serving => self.go(SessionPhase::Withdrawing, SessionAction::Withdraw),
            SessionPhase::Withdrawing => self.go(
                SessionPhase::Stopping,
                SessionAction::StopServices,
            ),
            SessionPhase::Stopping => self.go(
                SessionPhase::JoiningServer,
                SessionAction::JoinServer,
            ),
            SessionPhase::JoiningServer => {
                next.server = false;
                next.join_exporter()
            },
            SessionPhase::JoiningExporter => {
                next.exporter = false;
                next.join_pusher()
            },
            SessionPhase::JoiningPusher => {
                next.pusher = false;
                next.go(SessionPhase::Finished, SessionAction::Return)
            },
            SessionPhase::Finished => (self, SessionAction::Return),
        }
    }
}

// ---------------------------------------------------------------------------
// Laws
// ---------------------------------------------------------------------------

/// Whether an action joins a service.
pub open spec fn joins_service(a: SessionAction) -> bool {
    a is JoinServer || a is JoinExporter || a is JoinPusher
}

/// Capture stops first: services are told to stop, and are joined, only while
/// no capture runs; and none is joined that was not told to stop.
pub proof fn law_capture_stops_before_services(s: Session, e: SessionEvent)
    requires
        s.wf(),
        s.expects(e),
    ensures
        s.stepped(e).1 is StopServices || joins_service(s.stepped(e).1) ==> !s.stepped(e).0.capture,
        joins_service(s.stepped(e).1) ==> s.phase is Stopping || s.phase is JoiningServer
            || s.phase is JoiningExporter,
        s.stepped(e).1 is JoinServer ==> s.phase is Stopping,
{
}

/// Whatever was started is joined: a run returns only when neither capture
/// nor any service runs, wherever it failed.
pub proof fn law_nothing_outlives_a_run(s: Session, e: SessionEvent)
    requires
        s.wf(),
        s.expects(e),
    ensures
        s.stepped(e).1 is Return ==> s.stepped(e).0.phase is Finished,
        s.stepped(e).0.phase is Finished ==> {
            let end = s.stepped(e).0;
            !end.server && !end.exporter && !end.pusher && !end.capture
        },
        s.server && !s.stepped(e).0.server ==> s.phase is JoiningServer,
        s.exporter && !s.stepped(e).0.exporter ==> s.phase is JoiningExporter,
        s.pusher && !s.stepped(e).0.pusher ==> s.phase is JoiningPusher,
        s.capture && !s.stepped(e).0.capture ==> s.phase is JoiningCapture,
{
}

/// Capture starts only when every service that is asked for runs, and the
/// address is announced before it does.
pub proof fn law_services_are_up_before_capture(s: Session, e: SessionEvent)
    requires
        s.wf(),
        s.expects(e),
    ensures
        s.stepped(e).1 is StartCapture ==> s.phase is Announcing && s.all_services(),
        s.stepped(e).0.capture ==> s.stepped(e).0.all_services(),
{
}

} // verus!
