//! The ssh tunnel to the database: how it is opened, step by step, and where the
//! database is then found.

use vstd::prelude::*;
use vstd::string::StringExecFns;
use crate::text::{decimal, decimal_text};

verus! {

/// How long the tunnel may take to come up, in milliseconds.
pub const DEADLINE_MILLIS: u64 = 15_000;

/// How long to wait between two looks at the tunnel, in milliseconds.
pub const PAUSE_MILLIS: u64 = 150;

/// The port of the database where no tunnel is used.
pub const DEFAULT_PORT: u16 = 27017;

/// What the opening of a tunnel is waiting for.
#[derive(Clone, Copy, Debug, PartialEq, Eq, Structural)]
pub enum Waiting {
    /// Whether something already listens on the local port.
    FirstProbe,
    /// Whether ssh could be started.
    Spawn,
    /// How long ago that was.
    Clock,
    /// Whether ssh still runs.
    Child,
    /// Whether the local port is open now.
    Probe,
    /// The end of a pause.
    Pause,
    /// Nothing more.
    Nothing,
}

/// How the opening of a tunnel ends.
#[derive(Clone, Copy, Debug, PartialEq, Eq, Structural)]
pub enum Outcome {
    /// The local port was open before: an existing tunnel or a local database is used.
    Reused,
    /// The tunnel is up.
    Opened,
    /// ssh could not be started.
    SpawnFailed,
    /// Whether ssh still runs could not be found out.
    PollFailed,
    /// ssh ended before the tunnel was up.
    ExitedEarly,
    /// The tunnel did not come up in time.
    TimedOut,
}

/// What to do next.
#[derive(Clone, Copy, Debug, PartialEq, Eq, Structural)]
pub enum Action {
    ProbePort,
    SpawnSsh,
    ReadClock,
    PollChild,
    Sleep { millis: u64 },
    Finish { outcome: Outcome },
}

/// What came of it.
#[derive(Clone, Copy, Debug, PartialEq, Eq, Structural)]
pub enum Event {
    Port { open: bool },
    Spawned { ok: bool },
    /// The milliseconds since ssh was started.
    Elapsed { millis: u64 },
    ChildRuns,
    ChildExited,
    ChildUnknown,
    Woke,
}

/// A state and what to do in it.
#[derive(Clone, Copy, Debug, PartialEq, Eq, Structural)]
pub struct Step {
    pub waiting: Waiting,
    pub action: Action,
}

/// Whether an event is one that a state waits for.
pub open spec fn answers(waiting: Waiting, event: Event) -> bool {
    match waiting {
        Waiting::FirstProbe => event is Port,
        Waiting::Spawn => event is Spawned,
        Waiting::Clock => event is Elapsed,
        Waiting::Child => event is ChildRuns || event is ChildExited || event is ChildUnknown,
        Waiting::Probe => event is Port,
        Waiting::Pause => event is Woke,
        Waiting::Nothing => false,
    }
}

/// The end of the opening.
pub open spec fn finish(outcome: Outcome) -> Step {
    Step { waiting: Waiting::Nothing, action: Action::Finish { outcome } }
}

/// The first step: to look whether the local port is in use.
pub open spec fn first_step() -> Step {
    Step { waiting: Waiting::FirstProbe, action: Action::ProbePort }
}

/// What follows an event.
pub open spec fn next_step(waiting: Waiting, event: Event) -> Step {
    match (waiting, event) {
        (Waiting::FirstProbe, Event::Port { open }) => if open {
            finish(Outcome::Reused)
        } else {
            Step { waiting: Waiting::Spawn, action: Action::SpawnSsh }
        },
        (Waiting::Spawn, Event::Spawned { ok }) => if ok {
            Step { waiting: Waiting::Clock, action: Action::ReadClock }
        } else {
            finish(Outcome::SpawnFailed)
        },
        (Waiting::Clock, Event::Elapsed { millis }) => if millis < DEADLINE_MILLIS {
            Step { waiting: Waiting::Child, action: Action::PollChild }
        } else {
            finish(Outcome::TimedOut)
        },
        (Waiting::Child, Event::ChildRuns) => Step {
            waiting: Waiting::Probe,
            action: Action::ProbePort,
        },
        (Waiting::Child, Event::ChildExited) => finish(Outcome::ExitedEarly),
        (Waiting::Child, Event::ChildUnknown) => finish(Outcome::PollFailed),
        (Waiting::Probe, Event::Port { open }) => if open {
            finish(Outcome::Opened)
        } else {
            Step { waiting: Waiting::Pause, action: Action::Sleep { millis: PAUSE_MILLIS } }
        },
        (Waiting::Pause, Event::Woke) => Step {
            waiting: Waiting::Clock,
            action: Action::ReadClock,
        },
        _ => finish(Outcome::PollFailed),
    }
}

/// The first step.
pub fn begin() -> (step: Step)
    ensures
        step == first_step(),
{
    Step { waiting: Waiting::FirstProbe, action: Action::ProbePort }
}

fn end_with(outcome: Outcome) -> (step: Step)
    ensures
        step == finish(outcome),
{
    Step { waiting: Waiting::Nothing, action: Action::Finish { outcome } }
}

/// The step that follows an event.
pub fn advance(waiting: Waiting, event: Event) -> (step: Step)
    requires
        answers(waiting, event),
    ensures
        step == next_step(waiting, event),
{
    match (waiting, event) {
        (Waiting::FirstProbe, Event::Port { open }) => if open {
            end_with(Outcome::Reused)
        } else {
            Step { waiting: Waiting::Spawn, action: Action::SpawnSsh }
        },
        (Waiting::Spawn, Event::Spawned { ok }) => if ok {
            Step { waiting: Waiting::Clock, action: Action::ReadClock }
        } else {
            end_with(Outcome::SpawnFailed)
        },
        (Waiting::Clock, Event::Elapsed { millis }) => if millis < DEADLINE_MILLIS {
            Step { waiting: Waiting::Child, action: Action::PollChild }
        } else {
            end_with(Outcome::TimedOut)
        },
        (Waiting::Child, Event::ChildRuns) => Step {
            waiting: Waiting::Probe,
            action: Action::ProbePort,
        },
        (Waiting::Child, Event::ChildExited) => end_with(Outcome::ExitedEarly),
        (Waiting::Child, Event::ChildUnknown) => end_with(Outcome::PollFailed),
        (Waiting::Probe, Event::Port { open }) => if open {
            end_with(Outcome::Opened)
        } else {
            Step { waiting: Waiting::Pause, action: Action::Sleep { millis: PAUSE_MILLIS } }
        },
        (Waiting::Pause, Event::Woke) => Step {
            waiting: Waiting::Clock,
            action: Action::ReadClock,
        },
        _ => end_with(Outcome::PollFailed),
    }
}

/// Where some events lead.
pub open spec fn after(events: Seq<Event>) -> Step
    decreases events.len(),
{
    if events.len() == 0 {
        first_step()
    } else {
        next_step(after(events.drop_last()).waiting, events.last())
    }
}

/// Events that each answer what was waited for.
pub open spec fn history(events: Seq<Event>) -> bool
    decreases events.len(),
{
    events.len() == 0 || (history(events.drop_last()) && answers(
        after(events.drop_last()).waiting,
        events.last(),
    ))
}

/// What led to each state.
proof fn lemma_history(events: Seq<Event>)
    requires
        history(events),
    ensures
        after(events).waiting is FirstProbe <==> events.len() == 0,
        after(events).waiting is Spawn ==> events =~= seq![Event::Port { open: false }],
        events.len() > 0 && !(after(events) == finish(Outcome::Reused)) ==> events[0]
            == (Event::Port { open: false }),
        events.len() > 1 && !(after(events) == finish(Outcome::SpawnFailed)) ==> events[1]
            == (Event::Spawned { ok: true }),
        after(events).waiting is Child ==> (events.last() matches Event::Elapsed { millis }
            && millis < DEADLINE_MILLIS),
        after(events).waiting is Probe ==> events.len() >= 2 && events.last() is ChildRuns && (
        events[events.len() - 2] matches Event::Elapsed { millis } && millis < DEADLINE_MILLIS),
        after(events).waiting is Nothing <==> after(events).action is Finish,
    decreases events.len(),
{
    if events.len() > 0 {
        let early = events.drop_last();
        lemma_history(early);
        if early.len() > 0 {
            assert(events[0] == early[0]);
            assert(events[events.len() - 2] == early.last());
        }
        if early.len() > 1 {
            assert(events[1] == early[1]);
        }
    }
}

/// How the opening of a tunnel ends, and why: a port that was open at once is reused
/// and no ssh is started; otherwise ssh is started, and the tunnel counts as open only
/// once the port is found open while ssh runs, within the deadline. It is given up only
/// when ssh cannot be started or watched, when ssh ends, or when the deadline is past.
pub proof fn law_tunnel_outcomes(events: Seq<Event>)
    requires
        history(events),
    ensures
        after(events) == finish(Outcome::Reused) <==> events == seq![Event::Port { open: true }],
        after(events) == finish(Outcome::SpawnFailed) <==> events == seq![
            Event::Port { open: false },
            Event::Spawned { ok: false },
        ],
        after(events) == finish(Outcome::Opened) ==> {
            &&& events.len() >= 5
            &&& events[0] == (Event::Port { open: false })
            &&& events[1] == (Event::Spawned { ok: true })
            &&& events[events.len() - 3] matches Event::Elapsed { millis }
                && millis < DEADLINE_MILLIS
            &&& events[events.len() - 2] is ChildRuns
            &&& events.last() == (Event::Port { open: true })
        },
        after(events) == finish(Outcome::TimedOut) ==> (events.last() matches Event::Elapsed {
            millis,
        } && millis >= DEADLINE_MILLIS),
        after(events) == finish(Outcome::ExitedEarly) ==> events.last() is ChildExited,
        after(events) == finish(Outcome::PollFailed) ==> events.last() is ChildUnknown,
{
    lemma_history(events);
    if events.len() > 0 {
        let early = events.drop_last();
        lemma_history(early);
        if early.len() > 0 {
            assert(events[0] == early[0]);
            assert(events[events.len() - 2] == early.last());
        }
        if early.len() > 1 {
            assert(events[1] == early[1]);
            assert(events[events.len() - 3] == early[early.len() - 2]);
        }
        if after(events) == finish(Outcome::Reused) {
            assert(early.len() == 0);
            assert(events =~= seq![Event::Port { open: true }]);
        }
        if after(events) == finish(Outcome::SpawnFailed) {
            assert(events =~= seq![Event::Port { open: false }, Event::Spawned { ok: false }]);
        }
    }
    if events == seq![Event::Port { open: true }] {
        assert(events.drop_last() =~= Seq::<Event>::empty());
        assert(after(events.drop_last()) == first_step());
    }
    if events == seq![Event::Port { open: false }, Event::Spawned { ok: false }] {
        let early = events.drop_last();
        assert(early =~= seq![Event::Port { open: false }]);
        assert(early.drop_last() =~= Seq::<Event>::empty());
        assert(after(early.drop_last()) == first_step());
        assert(after(early).waiting is Spawn);
    }
}

/// `local:127.0.0.1:remote`, the forward that ssh is asked for.
pub open spec fn forward(local_port: int, remote_port: int) -> Seq<char> {
    decimal(local_port) + ":127.0.0.1:"@ + decimal(remote_port)
}

/// The arguments of ssh: no command, no prompts, and an end where the forward fails.
pub fn ssh_args(host: &str, local_port: u16, remote_port: u16) -> (args: Vec<String>)
    ensures
        args@.len() == 8,
        args@[0]@ == "-N"@,
        args@[1]@ == "-o"@,
        args@[2]@ == "ExitOnForwardFailure=yes"@,
        args@[3]@ == "-o"@,
        args@[4]@ == "BatchMode=yes"@,
        args@[5]@ == "-L"@,
        args@[6]@ == forward(local_port as int, remote_port as int),
        args@[7]@ == host@,
{
    let mut forwarded = decimal_text(local_port as i64);
    let remote = decimal_text(remote_port as i64);
    forwarded.append(":127.0.0.1:");
    forwarded.append(remote.as_str());
    let mut args: Vec<String> = Vec::new();
    args.push("-N".to_owned());
    args.push("-o".to_owned());
    args.push("ExitOnForwardFailure=yes".to_owned());
    args.push("-o".to_owned());
    args.push("BatchMode=yes".to_owned());
    args.push("-L".to_owned());
    args.push(forwarded);
    args.push(host.to_owned());
    args
}

/// What a reader is told of an outcome, if anything; `status` says how ssh ended.
pub open spec fn notice(outcome: Outcome, host: Seq<char>, port: int, status: Seq<char>) -> Option<
    Seq<char>,
> {
    match outcome {
        Outcome::Reused => Some(
            "note: 127.0.0.1:"@ + decimal(port) + " already accepting connections; reusing it"@,
        ),
        Outcome::SpawnFailed => Some("failed to spawn ssh to "@ + host),
        Outcome::ExitedEarly => Some(
            "ssh tunnel to "@ + host + " exited early ("@ + status + ")"@,
        ),
        Outcome::TimedOut => Some(
            "timed out waiting for the ssh tunnel to "@ + host + " on port "@ + decimal(port),
        ),
        Outcome::Opened => None,
        Outcome::PollFailed => None,
    }
}

/// What a reader is told of an outcome, if anything; `status` says how ssh ended.
pub fn describe(outcome: Outcome, host: &str, local_port: u16, status: &str) -> (text: Option<
    String,
>)
    ensures
        match text {
            Some(t) => notice(outcome, host@, local_port as int, status@) == Some(t@),
            None => notice(outcome, host@, local_port as int, status@) is None,
        },
{
    let port = decimal_text(local_port as i64);
    match outcome {
        Outcome::Reused => {
            let mut t = "note: 127.0.0.1:".to_owned();
            t.append(port.as_str());
            t.append(" already accepting connections; reusing it");
            Some(t)
        },
        Outcome::SpawnFailed => {
            let mut t = "failed to spawn ssh to ".to_owned();
            t.append(host);
            Some(t)
        },
        Outcome::ExitedEarly => {
            let mut t = "ssh tunnel to ".to_owned();
            t.append(host);
            t.append(" exited early (");
            t.append(status);
            t.append(")");
            Some(t)
        },
        Outcome::TimedOut => {
            let mut t = "timed out waiting for the ssh tunnel to ".to_owned();
            t.append(host);
            t.append(" on port ");
            t.append(port.as_str());
            Some(t)
        },
        Outcome::Opened => None,
        Outcome::PollFailed => None,
    }
}

/// Where the database is found: the address that was given, or else the local end of
/// the tunnel, or the usual port of this machine without one.
pub fn database_uri(uri: Option<String>, no_tunnel: bool, local_port: u16) -> (address: String)
    ensures
        match uri {
            Some(u) => address@ == u@,
            None => address@ == "mongodb://127.0.0.1:"@ + decimal(
                if no_tunnel {
                    27017
                } else {
                    local_port as int
                },
            ),
        },
{
    match uri {
        Some(u) => u,
        None => {
            let port: u16 = if no_tunnel {
                DEFAULT_PORT
            } else {
                local_port
            };
            let mut address = "mongodb://127.0.0.1:".to_owned();
            let digits = decimal_text(port as i64);
            address.append(digits.as_str());
            address
        },
    }
}

/// Each state asks for what it waits for, so that what comes of its action answers it.
pub proof fn law_action_asks_for_answer(events: Seq<Event>)
    requires
        history(events),
    ensures
        ({
            let step = after(events);
            match step.waiting {
                Waiting::FirstProbe => step.action == Action::ProbePort,
                Waiting::Spawn => step.action == Action::SpawnSsh,
                Waiting::Clock => step.action == Action::ReadClock,
                Waiting::Child => step.action == Action::PollChild,
                Waiting::Probe => step.action == Action::ProbePort,
                Waiting::Pause => step.action == (Action::Sleep { millis: 150 }),
                Waiting::Nothing => step.action is Finish,
            }
        }),
    decreases events.len(),
{
    if events.len() > 0 {
        law_action_asks_for_answer(events.drop_last());
    }
}

/// What follows each answer: an open port ends the opening, at once or later; ssh is
/// looked at, and the port after it, as long as less than fifteen seconds have gone by,
/// with a pause after each look; and every failure ends it with its own outcome.
pub proof fn law_tunnel_goes_on(waiting: Waiting, event: Event)
    requires
        answers(waiting, event),
    ensures
        ({
            let next = next_step(waiting, event);
            match event {
                Event::Port { open } => {
                    &&& open && waiting is FirstProbe ==> next.action == (Action::Finish {
                        outcome: Outcome::Reused,
                    })
                    &&& open && waiting is Probe ==> next.action == (Action::Finish {
                        outcome: Outcome::Opened,
                    })
                    &&& !open && waiting is FirstProbe ==> next.waiting is Spawn
                    &&& !open && waiting is Probe ==> next.waiting is Pause
                    &&& waiting is FirstProbe || waiting is Probe
                },
                Event::Spawned { ok } => {
                    &&& ok ==> next.waiting is Clock
                    &&& !ok ==> next.action == (Action::Finish { outcome: Outcome::SpawnFailed })
                },
                Event::Elapsed { millis } => {
                    &&& millis < 15_000 ==> next.waiting is Child
                    &&& millis >= 15_000 ==> next.action == (Action::Finish {
                        outcome: Outcome::TimedOut,
                    })
                },
                Event::ChildRuns => next.waiting is Probe,
                Event::ChildExited => next.action == (Action::Finish {
                    outcome: Outcome::ExitedEarly,
                }),
                Event::ChildUnknown => next.action == (Action::Finish {
                    outcome: Outcome::PollFailed,
                }),
                Event::Woke => next.waiting is Clock,
            }
        }),
        next_step(waiting, event).action is Finish <==> next_step(waiting, event).waiting is Nothing,
{
}

/// The opening begins with a look at the port, and each state takes exactly the answers
/// to what it asked.
pub proof fn law_tunnel_begins(event: Event)
    ensures
        first_step() == (Step { waiting: Waiting::FirstProbe, action: Action::ProbePort }),
        answers(Waiting::FirstProbe, event) <==> event is Port,
        answers(Waiting::Probe, event) <==> event is Port,
        answers(Waiting::Spawn, event) <==> event is Spawned,
        answers(Waiting::Clock, event) <==> event is Elapsed,
        answers(Waiting::Child, event) <==> event is ChildRuns || event is ChildExited
            || event is ChildUnknown,
        answers(Waiting::Pause, event) <==> event is Woke,
        !answers(Waiting::Nothing, event),
{
}

/// What a reader is told names the host, the port and the end of ssh, whole.
pub proof fn law_tunnel_messages(host: Seq<char>, port: int, other: int, status: Seq<char>)
    ensures
        notice(Outcome::Reused, host, port, status) == Some(
            "note: 127.0.0.1:"@ + decimal(port) + " already accepting connections; reusing it"@,
        ),
        notice(Outcome::SpawnFailed, host, port, status) == Some("failed to spawn ssh to "@ + host),
        notice(Outcome::ExitedEarly, host, port, status) == Some(
            "ssh tunnel to "@ + host + " exited early ("@ + status + ")"@,
        ),
        notice(Outcome::TimedOut, host, port, status) == Some(
            "timed out waiting for the ssh tunnel to "@ + host + " on port "@ + decimal(port),
        ),
        notice(Outcome::Opened, host, port, status) is None,
        notice(Outcome::PollFailed, host, port, status) is None,
        forward(port, other) == decimal(port) + ":127.0.0.1:"@ + decimal(other),
{
}

} // verus!
