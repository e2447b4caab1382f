//! `lport kill`: who is signalled, what is reported, and with which code the
//! run ends.
//!
//! A run is a state machine. `KillRun::new` lists the visits to make;
//! `KillRun::begin` and `KillRun::advance` say what to print and which single
//! thing to do next (ask, send a signal, wait, finish), and take back what
//! came of it.

use vstd::prelude::*;
use crate::command::{CommandResult, CommandView};
use crate::messages;
use crate::messages::{
    already_handled, confirm, declined, docker_owned, escalate, kill_failure_lines, killed,
    no_listener, not_spawned, pid_unknown, refused, restarted, retry_hint, skipped, survived_kill,
    survived_term, Line, LineView, Signal,
};
use crate::model::{Entry, EntryView};
use crate::model;
use crate::text;
use crate::text::text_of;

verus! {

/// How long a signalled process is given to disappear.
pub const KILL_WAIT_MS: u64 = 3000;

/// How long a process is given to disappear after an escalation.
pub const ESCALATE_WAIT_MS: u64 = 2000;

/// How long the wait between two looks at a process lasts.
pub const POLL_MS: u64 = 100;

/// How long a supervisor is given to take a freed port again before the
/// listeners are looked at once more.
pub const RESTART_WAIT_MS: u64 = 500;

// ---------------------------------------------------------------------------
// The state machine
// ---------------------------------------------------------------------------

/// One thing to deal with: a requested port that nothing listens on, or one
/// listener on a requested port.
#[derive(Clone, Copy, Debug, PartialEq, Eq, Structural)]
pub enum Visit {
    NoListener { port: u32 },
    Target { port: u32, index: usize },
}

/// What a run waits for.
#[derive(Clone, Copy, Debug, PartialEq, Eq, Structural)]
pub enum Phase {
    Ready,
    Confirming,
    Signaling,
    Waiting,
    AskingEscalation,
    Escalating,
    WaitingEscalated,
    Done,
}

/// How a visit ended.
#[derive(Clone, Copy, Debug, PartialEq, Eq, Structural)]
pub enum Outcome {
    NoListener,
    Docker,
    PidUnknown,
    AlreadyHandled,
    Skipped,
    Refused,
    SignalFailed,
    Killed,
    Survived,
    EscalationDeclined,
}

impl Outcome {
    /// Whether the outcome makes the run fail.
    pub open spec fn fails(self) -> bool {
        !(self == Outcome::Killed || self == Outcome::Skipped || self == Outcome::AlreadyHandled)
    }

    /// Whether the outcome makes the run fail.
    pub fn is_failure(self) -> (r: bool)
        ensures
            r == self.fails(),
    {
        match self {
            Outcome::Killed | Outcome::Skipped | Outcome::AlreadyHandled => false,
            _ => true,
        }
    }
}

/// What came of the last action.
#[derive(Debug, PartialEq, Eq)]
pub enum KillEvent {
    /// The user answered a question.
    Answer { yes: bool },
    /// `kill` reported success.
    Sent,
    /// `kill` exited with a failure.
    Failed { code: Option<i32>, stderr: String },
    /// `kill` could not be started.
    NotSpawned { message: String },
    /// The wait ended: with the process gone, or without.
    Waited { gone: bool },
}

/// The view of `KillEvent`.
#[verifier::ext_equal]
pub enum EventView {
    Answer { yes: bool },
    Sent,
    Failed { code: Option<i32>, stderr: Seq<char> },
    NotSpawned { message: Seq<char> },
    Waited { gone: bool },
}

impl View for KillEvent {
    type V = EventView;

    open spec fn view(&self) -> EventView {
        match *self {
            KillEvent::Answer { yes } => EventView::Answer { yes },
            KillEvent::Sent => EventView::Sent,
            KillEvent::Failed { code, stderr } => EventView::Failed { code, stderr: stderr@ },
            KillEvent::NotSpawned { message } => EventView::NotSpawned { message: message@ },
            KillEvent::Waited { gone } => EventView::Waited { gone },
        }
    }
}

/// The event that the outcome of a `kill` command is.
pub open spec fn sent(r: CommandView) -> EventView {
    match r {
        CommandView::Ran { success: true, .. } => EventView::Sent,
        CommandView::Ran { success: false, code, stderr, .. } => EventView::Failed {
            code,
            stderr: text::utf8_lossy(stderr),
        },
        CommandView::NotSpawned { message } => EventView::NotSpawned { message },
    }
}

impl KillEvent {
    /// What came of the `kill` command.
    pub fn of_kill(result: &CommandResult) -> (r: KillEvent)
        ensures
            r@ == sent(result@),
    {
        match result {
            CommandResult::Ran { success, code, stderr, .. } => if *success {
                KillEvent::Sent
            } else {
                KillEvent::Failed { code: *code, stderr: text_of(stderr.as_slice()) }
            },
            CommandResult::NotSpawned { message } => KillEvent::NotSpawned {
                message: message.clone(),
            },
        }
    }
}

/// The one thing to do next.
#[derive(Debug, PartialEq, Eq)]
pub enum KillAction {
    /// Ask the user a question.
    Ask { prompt: String },
    /// Send a signal.
    Send { pid: u32, signal: Signal },
    /// Wait for a process to disappear.
    Wait { pid: u32, timeout_ms: u64 },
    /// End with an exit code.
    Finish { code: i32 },
}

/// The view of `KillAction`.
#[verifier::ext_equal]
pub enum ActionView {
    Ask { prompt: Seq<char> },
    Send { pid: u32, signal: Signal },
    Wait { pid: u32, timeout_ms: u64 },
    Finish { code: i32 },
}

impl View for KillAction {
    type V = ActionView;

    open spec fn view(&self) -> ActionView {
        match *self {
            KillAction::Ask { prompt } => ActionView::Ask { prompt: prompt@ },
            KillAction::Send { pid, signal } => ActionView::Send { pid, signal },
            KillAction::Wait { pid, timeout_ms } => ActionView::Wait { pid, timeout_ms },
            KillAction::Finish { code } => ActionView::Finish { code },
        }
    }
}

/// The state of a run.
#[verifier::ext_equal]
pub struct KillState {
    pub entries: Seq<EntryView>,
    pub visits: Seq<Visit>,
    pub force: bool,
    pub yes: bool,
    pub tty: bool,
    /// How many visits are over.
    pub at: nat,
    pub phase: Phase,
    /// The processes dealt with, in order.
    pub handled: Seq<u32>,
    /// The ports whose owner is confirmed dead.
    pub freed: Seq<u32>,
    /// How each visit that is over ended.
    pub outcomes: Seq<Outcome>,
}

/// A state, the lines to print on entering it, and the action to take in it.
#[verifier::ext_equal]
pub struct Step {
    pub state: KillState,
    pub lines: Seq<LineView>,
    pub action: ActionView,
}

/// The listeners on `port` among `entries[from..]`, as visits.
pub open spec fn targets(entries: Seq<EntryView>, port: u32, from: int) -> Seq<Visit>
    decreases entries.len() - from,
{
    if from < 0 || from >= entries.len() {
        Seq::empty()
    } else if entries[from].port == port {
        seq![Visit::Target { port, index: from as usize }] + targets(entries, port, from + 1)
    } else {
        targets(entries, port, from + 1)
    }
}

/// What there is to deal with on one requested port.
pub open spec fn port_visits(entries: Seq<EntryView>, port: u32) -> Seq<Visit> {
    if targets(entries, port, 0).len() == 0 {
        seq![Visit::NoListener { port }]
    } else {
        targets(entries, port, 0)
    }
}

/// What there is to deal with: port by port in the order of the request, and
/// on each port listener by listener.
pub open spec fn all_visits(entries: Seq<EntryView>, ports: Seq<u32>) -> Seq<Visit>
    decreases ports.len(),
{
    if ports.len() == 0 {
        Seq::empty()
    } else {
        all_visits(entries, ports.drop_last()) + port_visits(entries, ports.last())
    }
}

/// Whether any visit made the run fail.
pub open spec fn any_failure(outcomes: Seq<Outcome>) -> bool {
    exists|i: int| 0 <= i < outcomes.len() && (#[trigger] outcomes[i]).fails()
}

impl KillState {
    /// The state before the first visit.
    pub open spec fn initial(
        entries: Seq<EntryView>,
        ports: Seq<u32>,
        force: bool,
        yes: bool,
        tty: bool,
    ) -> KillState {
        KillState {
            entries,
            visits: all_visits(entries, ports),
            force,
            yes,
            tty,
            at: 0,
            phase: Phase::Ready,
            handled: Seq::empty(),
            freed: Seq::empty(),
            outcomes: Seq::empty(),
        }
    }

    /// The signal that is sent first.
    pub open spec fn signal(self) -> Signal {
        if self.force {
            Signal::Kill
        } else {
            Signal::Term
        }
    }

    /// The exit code that the visits so far call for.
    pub open spec fn code(self) -> i32 {
        if any_failure(self.outcomes) {
            1
        } else {
            0
        }
    }

    /// Whether a listener is being visited.
    pub open spec fn on_target(self) -> bool {
        self.at < self.visits.len() && self.visits[self.at as int] is Target
            && self.visits[self.at as int]->index < self.entries.len()
    }

    /// The listener being visited.
    pub open spec fn target(self) -> EntryView {
        self.entries[self.visits[self.at as int]->index as int]
    }

    /// The port being visited.
    pub open spec fn port(self) -> u32 {
        match self.visits[self.at as int] {
            Visit::NoListener { port } => port,
            Visit::Target { port, .. } => port,
        }
    }

    /// The process being visited.
    pub open spec fn pid(self) -> u32 {
        self.target().pid.unwrap()
    }

    /// The state in another phase.
    pub open spec fn entering(self, phase: Phase) -> KillState {
        KillState { phase, ..self }
    }

    /// The state with one more process dealt with.
    pub open spec fn handling(self, pid: u32) -> KillState {
        KillState { handled: self.handled.push(pid), ..self }
    }

    /// The state with one more port free.
    pub open spec fn freeing(self, port: u32) -> KillState {
        KillState { freed: self.freed.push(port), ..self }
    }

    /// The state after the visit has ended with `outcome`.
    pub open spec fn closing(self, outcome: Outcome) -> KillState {
        KillState {
            at: self.at + 1,
            phase: Phase::Ready,
            outcomes: self.outcomes.push(outcome),
            ..self
        }
    }

    /// Goes from visit to visit until there is something to do.
    pub open spec fn proceed(self) -> Step
        decreases self.visits.len() - self.at,
    {
        if self.at >= self.visits.len() {
            Step {
                state: self.entering(Phase::Done),
                lines: Seq::empty(),
                action: ActionView::Finish { code: self.code() },
            }
        } else {
            match self.visits[self.at as int] {
                Visit::NoListener { port } => said(
                    seq![LineView { err: true, text: messages::no_listener_text(port) }],
                    self.closing(Outcome::NoListener).proceed(),
                ),
                Visit::Target { port, index } => {
                    let e = self.entries[index as int];
                    match (e.docker, e.pid) {
                        (Some(d), _) => said(
                            seq![LineView { err: true, text: messages::docker_text(e.proto, port, d.name) }],
                            self.closing(Outcome::Docker).proceed(),
                        ),
                        (None, None) => said(
                            seq![LineView { err: true, text: messages::pid_unknown_text(e.proto, port) }],
                            self.closing(Outcome::PidUnknown).proceed(),
                        ),
                        (None, Some(pid)) => if self.handled.contains(pid) {
                            said(
                                seq![
                                    LineView {
                                        err: false,
                                        text: messages::already_handled_text(e.proto, port, pid),
                                    },
                                ],
                                self.closing(Outcome::AlreadyHandled).proceed(),
                            )
                        } else if self.yes {
                            Step {
                                state: self.handling(pid).entering(Phase::Signaling),
                                lines: Seq::empty(),
                                action: ActionView::Send { pid, signal: self.signal() },
                            }
                        } else if self.tty {
                            Step {
                                state: self.handling(pid).entering(Phase::Confirming),
                                lines: Seq::empty(),
                                action: ActionView::Ask {
                                    prompt: messages::confirm_text(
                                        e.proto,
                                        port,
                                        pid,
                                        e.process,
                                        e.cwd,
                                        self.signal(),
                                    ),
                                },
                            }
                        } else {
                            said(
                                seq![
                                    LineView {
                                        err: true,
                                        text: messages::refused_text(e.proto, port, pid, e.process),
                                    },
                                ],
                                self.handling(pid).closing(Outcome::Refused).proceed(),
                            )
                        },
                    }
                },
            }
        }
    }

    /// Whether `event` is what the run waits for.
    pub open spec fn expects(self, event: EventView) -> bool {
        match self.phase {
            Phase::Confirming | Phase::AskingEscalation => event is Answer,
            Phase::Signaling | Phase::Escalating => event is Sent || event is Failed
                || event is NotSpawned,
            Phase::Waiting | Phase::WaitingEscalated => event is Waited,
            Phase::Ready | Phase::Done => false,
        }
    }

    /// The answer to `event`.
    pub open spec fn react(self, event: EventView) -> Step {
        let e = self.target();
        let port = self.port();
        let pid = self.pid();
        let sent = if self.phase == Phase::Escalating || self.phase == Phase::WaitingEscalated {
            Signal::Kill
        } else {
            self.signal()
        };
        match event {
            EventView::Answer { yes } => if self.phase == Phase::Confirming {
                if yes {
                    Step {
                        state: self.entering(Phase::Signaling),
                        lines: Seq::empty(),
                        action: ActionView::Send { pid, signal: self.signal() },
                    }
                } else {
                    said(
                        seq![LineView { err: false, text: messages::skipped_text(pid, e.process) }],
                        self.closing(Outcome::Skipped).proceed(),
                    )
                }
            } else {
                if yes {
                    Step {
                        state: self.entering(Phase::Escalating),
                        lines: Seq::empty(),
                        action: ActionView::Send { pid, signal: Signal::Kill },
                    }
                } else {
                    said(
                        seq![LineView { err: false, text: messages::declined_text(pid, e.process) }],
                        self.closing(Outcome::EscalationDeclined).proceed(),
                    )
                }
            },
            EventView::Sent => if self.phase == Phase::Signaling {
                Step {
                    state: self.entering(Phase::Waiting),
                    lines: Seq::empty(),
                    action: ActionView::Wait { pid, timeout_ms: KILL_WAIT_MS },
                }
            } else {
                Step {
                    state: self.entering(Phase::WaitingEscalated),
                    lines: Seq::empty(),
                    action: ActionView::Wait { pid, timeout_ms: ESCALATE_WAIT_MS },
                }
            },
            EventView::Failed { code, stderr } => said(
                messages::kill_failure(e.proto, port, pid, sent, code, stderr),
                self.closing(Outcome::SignalFailed).proceed(),
            ),
            EventView::NotSpawned { message } => said(
                seq![LineView { err: true, text: messages::not_spawned_text(e.proto, port, message) }],
                self.closing(Outcome::SignalFailed).proceed(),
            ),
            EventView::Waited { gone } => if gone {
                said(
                    seq![
                        LineView {
                            err: false,
                            text: messages::killed_text(e.proto, port, pid, e.process, sent),
                        },
                    ],
                    self.freeing(port).closing(Outcome::Killed).proceed(),
                )
            } else if sent == Signal::Kill {
                said(
                    seq![
                        LineView {
                            err: true,
                            text: messages::survived_kill_text(
                                e.proto,
                                port,
                                pid,
                                e.process,
                                waited_seconds(self.phase),
                            ),
                        },
                    ],
                    self.closing(Outcome::Survived).proceed(),
                )
            } else {
                let alive = LineView {
                    err: true,
                    text: messages::survived_term_text(
                        e.proto,
                        port,
                        pid,
                        e.process,
                        waited_seconds(self.phase),
                    ),
                };
                if self.yes || !self.tty {
                    said(
                        seq![alive, LineView { err: true, text: messages::retry_hint_text(port) }],
                        self.closing(Outcome::Survived).proceed(),
                    )
                } else {
                    Step {
                        state: self.entering(Phase::AskingEscalation),
                        lines: seq![alive],
                        action: ActionView::Ask { prompt: messages::escalate_text() },
                    }
                }
            },
        }
    }
}

impl KillState {
    /// Whether the parts of the state fit together: every visit names a
    /// listener there is, every visit that is over has its outcome, and
    /// whoever is being asked about, signalled or waited for is a process
    /// with a known number outside any container.
    pub open spec fn wf(self) -> bool {
        &&& self.at <= self.visits.len()
        &&& self.outcomes.len() == self.at
        &&& forall|i: int|
            0 <= i < self.visits.len() && (#[trigger] self.visits[i]) is Target
                ==> self.visits[i]->index < self.entries.len()
        &&& self.phase != Phase::Ready && self.phase != Phase::Done ==> self.on_target()
            && self.target().docker is None && self.target().pid is Some
        &&& self.phase == Phase::Done ==> self.at == self.visits.len()
    }
}

/// How many seconds a wait in `phase` lasts.
pub open spec fn waited_seconds(phase: Phase) -> nat {
    if phase == Phase::Waiting {
        (KILL_WAIT_MS / 1000) as nat
    } else {
        (ESCALATE_WAIT_MS / 1000) as nat
    }
}

/// A step with lines printed before it.
pub open spec fn said(lines: Seq<LineView>, step: Step) -> Step {
    Step { lines: lines + step.lines, ..step }
}

/// Whether `e`, found on a second look, is a new process on a freed port.
pub open spec fn restarts(e: EntryView, freed: Seq<u32>, handled: Seq<u32>) -> bool {
    e.docker is None && freed.contains(e.port) && (match e.pid {
        Some(pid) => !handled.contains(pid),
        None => false,
    })
}

/// Whether `a` already announced the restart that `b` shows.
pub open spec fn same_restart(
    a: EntryView,
    b: EntryView,
    freed: Seq<u32>,
    handled: Seq<u32>,
) -> bool {
    restarts(a, freed, handled) && a.proto == b.proto && a.port == b.port && a.pid == b.pid
}

/// The warnings on the listeners `again` of a second look: one for each new
/// process on a freed port.
pub open spec fn restart_texts(
    again: Seq<EntryView>,
    freed: Seq<u32>,
    handled: Seq<u32>,
) -> Seq<Seq<char>>
    decreases again.len(),
{
    if again.len() == 0 {
        Seq::empty()
    } else {
        let rest = again.drop_last();
        let e = again.last();
        let before = restart_texts(rest, freed, handled);
        if restarts(e, freed, handled) && !exists|k: int|
            0 <= k < rest.len() && same_restart(#[trigger] rest[k], e, freed, handled) {
            before.push(messages::restarted_text(e.proto, e.port, e.pid.unwrap(), e.process))
        } else {
            before
        }
    }
}

// ---------------------------------------------------------------------------
// Running it
// ---------------------------------------------------------------------------

/// What to print now and what to do after that.
#[derive(Debug, PartialEq, Eq)]
pub struct KillStep {
    pub lines: Vec<Line>,
    pub action: KillAction,
}

/// A run of `lport kill`.
#[derive(Debug)]
pub struct KillRun {
    entries: Vec<Entry>,
    visits: Vec<Visit>,
    force: bool,
    yes: bool,
    tty: bool,
    at: usize,
    phase: Phase,
    handled: Vec<u32>,
    freed: Vec<u32>,
    outcomes: Vec<Outcome>,
}

impl View for KillRun {
    type V = KillState;

    closed spec fn view(&self) -> KillState {
        KillState {
            entries: model::views(self.entries@),
            visits: self.visits@,
            force: self.force,
            yes: self.yes,
            tty: self.tty,
            at: self.at as nat,
            phase: self.phase,
            handled: self.handled@,
            freed: self.freed@,
            outcomes: self.outcomes@,
        }
    }
}

/// Whether `x` is in `v`.
pub fn has_number(v: &Vec<u32>, x: u32) -> (r: bool)
    ensures
        r == v@.contains(x),
{
    let mut i: usize = 0;
    while i < v.len()
        invariant
            i <= v@.len(),
            forall|j: int| 0 <= j < i ==> v@[j] != x,
        decreases v@.len() - i,
    {
        if v[i] == x {
            assert(v@[i as int] == x);
            return true;
        }
        i += 1;
    }
    false
}

/// Lists what there is to deal with.
fn list_visits(entries: &Vec<Entry>, ports: &Vec<u32>) -> (out: Vec<Visit>)
    ensures
        out@ == all_visits(model::views(entries@), ports@),
        forall|i: int|
            0 <= i < out@.len() && (#[trigger] out@[i]) is Target ==> out@[i]->index
                < entries@.len(),
{
    let ghost es = model::views(entries@);
    let mut out: Vec<Visit> = Vec::new();
    let mut p: usize = 0;
    assert(ports@.take(0) =~= Seq::<u32>::empty());
    while p < ports.len()
        invariant
            p <= ports@.len(),
            es == model::views(entries@),
            out@ == all_visits(es, ports@.take(p as int)),
            forall|i: int|
                0 <= i < out@.len() && (#[trigger] out@[i]) is Target ==> out@[i]->index
                    < entries@.len(),
        decreases ports@.len() - p,
    {
        let port: u32 = ports[p];
        let ghost before = out@;
        let mut i: usize = 0;
        let mut any: bool = false;
        while i < entries.len()
            invariant
                i <= entries@.len(),
                es == model::views(entries@),
                before + targets(es, port, 0) =~= out@ + targets(es, port, i as int),
                any == (out@.len() > before.len()),
                out@.len() >= before.len(),
                forall|k: int|
                    0 <= k < out@.len() && (#[trigger] out@[k]) is Target ==> out@[k]->index
                        < entries@.len(),
            decreases entries@.len() - i,
        {
            assert(es[i as int] == entries@[i as int]@);
            if entries[i].port == port {
                let v = Visit::Target { port, index: i };
                proof {
                    assert(out@ + (seq![v] + targets(es, port, i + 1)) =~= out@.push(v) + targets(
                        es,
                        port,
                        i + 1,
                    ));
                }
                out.push(v);
                any = true;
            }
            i += 1;
        }
        assert(targets(es, port, i as int) =~= Seq::<Visit>::empty());
        assert(out@ =~= before + targets(es, port, 0));
        if !any {
            out.push(Visit::NoListener { port });
        }
        proof {
            assert(ports@.take(p + 1).drop_last() =~= ports@.take(p as int));
            assert(ports@.take(p + 1).last() == port);
            assert(out@ =~= before + port_visits(es, port));
        }
        p += 1;
    }
    assert(ports@.take(p as int) =~= ports@);
    out
}

proof fn lemma_lines_push(v: Seq<Line>, l: Line)
    ensures
        messages::line_views(v.push(l)) == messages::line_views(v).push(l@),
{
    assert(messages::line_views(v.push(l)) =~= messages::line_views(v).push(l@));
}

proof fn lemma_said_twice(a: Seq<LineView>, b: Seq<LineView>, s: Step)
    ensures
        said(a, said(b, s)) == said(a + b, s),
{
    assert((a + b) + s.lines =~= a + (b + s.lines));
}

proof fn lemma_said_push(a: Seq<LineView>, l: LineView, s: Step)
    ensures
        said(a, said(seq![l], s)) == said(a.push(l), s),
{
    lemma_said_twice(a, seq![l], s);
    assert(a + seq![l] =~= a.push(l));
}

impl KillRun {
    /// A run on the listeners `entries` for the requested `ports`. `force`
    /// picks SIGKILL, `yes` leaves the questions out, and `tty` says whether
    /// there is a terminal to ask on.
    pub fn new(
        entries: Vec<Entry>,
        ports: &Vec<u32>,
        force: bool,
        yes: bool,
        tty: bool,
    ) -> (r: KillRun)
        ensures
            r@ == KillState::initial(model::views(entries@), ports@, force, yes, tty),
            r@.wf(),
    {
        let visits = list_visits(&entries, ports);
        let r = KillRun {
            entries,
            visits,
            force,
            yes,
            tty,
            at: 0,
            phase: Phase::Ready,
            handled: Vec::new(),
            freed: Vec::new(),
            outcomes: Vec::new(),
        };
        assert(r@ =~= KillState::initial(model::views(entries@), ports@, force, yes, tty));
        r
    }

    /// Ends the visit with `outcome`.
    fn close(&mut self, outcome: Outcome)
        requires
            old(self)@.wf(),
            old(self)@.at < old(self)@.visits.len(),
        ensures
            final(self)@ == old(self)@.closing(outcome),
            final(self)@.wf(),
    {
        assert(self.at < self.visits.len());
        self.outcomes.push(outcome);
        self.at += 1;
        self.phase = Phase::Ready;
        assert(self@ =~= old(self)@.closing(outcome));
    }

    /// Takes on one more process.
    fn handle(&mut self, pid: u32)
        requires
            old(self)@.wf(),
        ensures
            final(self)@ == old(self)@.handling(pid),
            final(self)@.wf(),
    {
        self.handled.push(pid);
    }

    /// Goes to another phase.
    fn enter(&mut self, phase: Phase)
        requires
            old(self)@.wf(),
            old(self)@.entering(phase).wf(),
        ensures
            final(self)@ == old(self)@.entering(phase),
            final(self)@.wf(),
    {
        self.phase = phase;
    }

    /// The exit code that the visits so far call for.
    fn exit_code(&self) -> (r: i32)
        ensures
            r == self@.code(),
    {
        let mut i: usize = 0;
        while i < self.outcomes.len()
            invariant
                i <= self.outcomes@.len(),
                forall|j: int| 0 <= j < i ==> !(#[trigger] self.outcomes@[j]).fails(),
            decreases self.outcomes@.len() - i,
        {
            if self.outcomes[i].is_failure() {
                assert(self@.outcomes[i as int].fails());
                return 1;
            }
            i += 1;
        }
        0
    }

    /// The signal that is sent first.
    fn first_signal(&self) -> (r: Signal)
        ensures
            r == self@.signal(),
    {
        if self.force {
            Signal::Kill
        } else {
            Signal::Term
        }
    }

    /// Goes from visit to visit until there is something to do.
    fn go_on(&mut self, before: Vec<Line>) -> (r: KillStep)
        requires
            old(self)@.wf(),
            old(self)@.phase == Phase::Ready,
        ensures
            (Step {
                state: final(self)@,
                lines: messages::line_views(r.lines@),
                action: r.action@,
            }) == said(messages::line_views(before@), old(self)@.proceed()),
            final(self)@.wf(),
    {
        let ghost goal = said(messages::line_views(before@), self@.proceed());
        let mut lines = before;
        while self.at < self.visits.len()
            invariant
                self@.wf(),
                self@.phase == Phase::Ready,
                said(messages::line_views(lines@), self@.proceed()) == goal,
                goal == said(messages::line_views(before@), old(self)@.proceed()),
            decreases self@.visits.len() - self@.at,
        {
            let ghost st = self@;
            let ghost ls = messages::line_views(lines@);
            match self.visits[self.at] {
                Visit::NoListener { port } => {
                    let l = Line { err: true, text: no_listener(port) };
                    proof {
                        lemma_lines_push(lines@, l);
                        lemma_said_push(ls, l@, st.closing(Outcome::NoListener).proceed());
                    }
                    lines.push(l);
                    self.close(Outcome::NoListener);
                },
                Visit::Target { port, index } => {
                    assert(st.visits[st.at as int] is Target);
                    assert(st.entries[index as int] == self.entries@[index as int]@);
                    let proto = self.entries[index].proto;
                    if let Some(d) = &self.entries[index].docker {
                        let l = Line { err: true, text: docker_owned(proto, port, d.name.as_str()) };
                        proof {
                            lemma_lines_push(lines@, l);
                            lemma_said_push(ls, l@, st.closing(Outcome::Docker).proceed());
                        }
                        lines.push(l);
                        self.close(Outcome::Docker);
                    } else {
                        match self.entries[index].pid {
                            None => {
                                let l = Line { err: true, text: pid_unknown(proto, port) };
                                proof {
                                    lemma_lines_push(lines@, l);
                                    lemma_said_push(
                                        ls,
                                        l@,
                                        st.closing(Outcome::PidUnknown).proceed(),
                                    );
                                }
                                lines.push(l);
                                self.close(Outcome::PidUnknown);
                            },
                            Some(pid) => {
                                if has_number(&self.handled, pid) {
                                    let l = Line {
                                        err: false,
                                        text: already_handled(proto, port, pid),
                                    };
                                    proof {
                                        lemma_lines_push(lines@, l);
                                        lemma_said_push(
                                            ls,
                                            l@,
                                            st.closing(Outcome::AlreadyHandled).proceed(),
                                        );
                                    }
                                    lines.push(l);
                                    self.close(Outcome::AlreadyHandled);
                                } else {
                                    self.handle(pid);
                                    if self.yes {
                                        self.enter(Phase::Signaling);
                                        let signal = self.first_signal();
                                        assert(ls + Seq::<LineView>::empty() =~= ls);
                                        return KillStep {
                                            lines,
                                            action: KillAction::Send { pid, signal },
                                        };
                                    } else if self.tty {
                                        self.enter(Phase::Confirming);
                                        let signal = self.first_signal();
                                        let e = &self.entries[index];
                                        let prompt = confirm(
                                            proto,
                                            port,
                                            pid,
                                            e.process.as_str(),
                                            e.cwd.as_str(),
                                            signal,
                                        );
                                        assert(ls + Seq::<LineView>::empty() =~= ls);
                                        return KillStep {
                                            lines,
                                            action: KillAction::Ask { prompt },
                                        };
                                    } else {
                                        let l = Line {
                                            err: true,
                                            text: refused(
                                                proto,
                                                port,
                                                pid,
                                                self.entries[index].process.as_str(),
                                            ),
                                        };
                                        proof {
                                            lemma_lines_push(lines@, l);
                                            lemma_said_push(
                                                ls,
                                                l@,
                                                st.handling(pid).closing(
                                                    Outcome::Refused,
                                                ).proceed(),
                                            );
                                        }
                                        lines.push(l);
                                        self.close(Outcome::Refused);
                                    }
                                }
                            },
                        }
                    }
                },
            }
        }
        let code: i32 = self.exit_code();
        self.enter(Phase::Done);
        assert(messages::line_views(lines@) + Seq::<LineView>::empty() =~= messages::line_views(
            lines@,
        ));
        KillStep { lines, action: KillAction::Finish { code } }
    }

    /// Begins the run.
    pub fn begin(&mut self) -> (r: KillStep)
        requires
            old(self)@.wf(),
            old(self)@.phase == Phase::Ready,
        ensures
            (Step {
                state: final(self)@,
                lines: messages::line_views(r.lines@),
                action: r.action@,
            }) == old(self)@.proceed(),
            final(self)@.wf(),
    {
        let none: Vec<Line> = Vec::new();
        let ghost st = self@;
        let r = self.go_on(none);
        assert(messages::line_views(none@) + st.proceed().lines =~= st.proceed().lines);
        r
    }

    /// Takes the report `l` on, ends the visit with `outcome` and goes on.
    fn report(&mut self, l: Line, outcome: Outcome) -> (r: KillStep)
        requires
            old(self)@.wf(),
            old(self)@.on_target(),
        ensures
            (Step {
                state: final(self)@,
                lines: messages::line_views(r.lines@),
                action: r.action@,
            }) == said(seq![l@], old(self)@.closing(outcome).proceed()),
            final(self)@.wf(),
    {
        let mut lines: Vec<Line> = Vec::new();
        lines.push(l);
        self.close(outcome);
        assert(messages::line_views(lines@) =~= seq![l@]);
        self.go_on(lines)
    }

    /// Tells the run what came of its last action.
    pub fn advance(&mut self, event: KillEvent) -> (r: KillStep)
        requires
            old(self)@.wf(),
            old(self)@.expects(event@),
        ensures
            (Step {
                state: final(self)@,
                lines: messages::line_views(r.lines@),
                action: r.action@,
            }) == old(self)@.react(event@),
            final(self)@.wf(),
    {
        let ghost st = self@;
        assert(st.visits[st.at as int] is Target);
        let (port, index): (u32, usize) = match self.visits[self.at] {
            Visit::NoListener { port } => (port, 0),
            Visit::Target { port, index } => (port, index),
        };
        assert(st.target() == self.entries@[index as int]@);
        let pid: u32 = match self.entries[index].pid {
            Some(p) => p,
            None => 0,
        };
        let proto = self.entries[index].proto;
        let process = self.entries[index].process.clone();
        let escalated: bool = self.phase == Phase::Escalating || self.phase
            == Phase::WaitingEscalated;
        let sent: Signal = if escalated {
            Signal::Kill
        } else {
            self.first_signal()
        };
        let empty: Vec<Line> = Vec::new();
        assert(messages::line_views(empty@) =~= Seq::<LineView>::empty());
        match event {
            KillEvent::Answer { yes } => {
                if self.phase == Phase::Confirming {
                    if yes {
                        self.enter(Phase::Signaling);
                        KillStep { lines: empty, action: KillAction::Send { pid, signal: sent } }
                    } else {
                        let l = Line { err: false, text: skipped(pid, process.as_str()) };
                        self.report(l, Outcome::Skipped)
                    }
                } else {
                    if yes {
                        self.enter(Phase::Escalating);
                        KillStep {
                            lines: empty,
                            action: KillAction::Send { pid, signal: Signal::Kill },
                        }
                    } else {
                        let l = Line { err: false, text: declined(pid, process.as_str()) };
                        self.report(l, Outcome::EscalationDeclined)
                    }
                }
            },
            KillEvent::Sent => {
                if self.phase == Phase::Signaling {
                    self.enter(Phase::Waiting);
                    KillStep {
                        lines: empty,
                        action: KillAction::Wait { pid, timeout_ms: KILL_WAIT_MS },
                    }
                } else {
                    self.enter(Phase::WaitingEscalated);
                    KillStep {
                        lines: empty,
                        action: KillAction::Wait { pid, timeout_ms: ESCALATE_WAIT_MS },
                    }
                }
            },
            KillEvent::Failed { code, stderr } => {
                let lines = kill_failure_lines(proto, port, pid, sent, code, stderr.as_str());
                self.close(Outcome::SignalFailed);
                self.go_on(lines)
            },
            KillEvent::NotSpawned { message } => {
                let l = Line { err: true, text: not_spawned(proto, port, message.as_str()) };
                self.report(l, Outcome::SignalFailed)
            },
            KillEvent::Waited { gone } => {
                let seconds: u64 = if self.phase == Phase::Waiting {
                    KILL_WAIT_MS / 1000
                } else {
                    ESCALATE_WAIT_MS / 1000
                };
                if gone {
                    let l = Line {
                        err: false,
                        text: killed(proto, port, pid, process.as_str(), sent),
                    };
                    self.freed.push(port);
                    assert(self@ =~= st.freeing(port));
                    self.report(l, Outcome::Killed)
                } else if sent == Signal::Kill {
                    let l = Line {
                        err: true,
                        text: survived_kill(proto, port, pid, process.as_str(), seconds),
                    };
                    self.report(l, Outcome::Survived)
                } else {
                    let l = Line {
                        err: true,
                        text: survived_term(proto, port, pid, process.as_str(), seconds),
                    };
                    let mut lines: Vec<Line> = Vec::new();
                    lines.push(l);
                    if self.yes || !self.tty {
                        let h = Line { err: true, text: retry_hint(port) };
                        lines.push(h);
                        assert(messages::line_views(lines@) =~= seq![l@, h@]);
                        self.close(Outcome::Survived);
                        self.go_on(lines)
                    } else {
                        assert(messages::line_views(lines@) =~= seq![l@]);
                        self.enter(Phase::AskingEscalation);
                        KillStep { lines, action: KillAction::Ask { prompt: escalate() } }
                    }
                }
            },
        }
    }

    /// Whether any port was freed, so that a look for restarts is due.
    pub fn freed_any(&self) -> (r: bool)
        ensures
            r == (self@.freed.len() > 0),
    {
        self.freed.len() > 0
    }

    /// The warnings that a second look at the listeners calls for.
    pub fn restart_warnings(&self, again: &Vec<Entry>) -> (out: Vec<String>)
        ensures
            model::texts(out@) == restart_texts(
                model::views(again@),
                self@.freed,
                self@.handled,
            ),
    {
        let ghost es = model::views(again@);
        let mut out: Vec<String> = Vec::new();
        let mut i: usize = 0;
        assert(es.take(0) =~= Seq::<EntryView>::empty());
        assert(model::texts(out@) =~= Seq::<Seq<char>>::empty());
        while i < again.len()
            invariant
                i <= again@.len(),
                es == model::views(again@),
                model::texts(out@) == restart_texts(es.take(i as int), self@.freed, self@.handled),
            decreases again@.len() - i,
        {
            let e = &again[i];
            assert(es[i as int] == e@);
            assert(es.take(i + 1).drop_last() =~= es.take(i as int));
            assert(es.take(i + 1).last() == e@);
            if self.is_restart(e) {
                let ghost ks = es.take(i as int);
                let mut known: bool = false;
                let mut j: usize = 0;
                while j < i
                    invariant
                        j <= i < again@.len(),
                        es == model::views(again@),
                        e == again@[i as int],
                        ks == es.take(i as int),
                        known ==> exists|k: int|
                            0 <= k < ks.len() && same_restart(
                                #[trigger] ks[k],
                                e@,
                                self@.freed,
                                self@.handled,
                            ),
                        !known ==> forall|k: int|
                            0 <= k < j ==> !same_restart(
                                #[trigger] ks[k],
                                e@,
                                self@.freed,
                                self@.handled,
                            ),
                    decreases i - j,
                {
                    assert(ks[j as int] == again@[j as int]@);
                    if self.announced(&again[j], e) {
                        known = true;
                    }
                    j += 1;
                }
                if !known {
                    let pid: u32 = match e.pid {
                        Some(p) => p,
                        None => 0,
                    };
                    let text = restarted(e.proto, e.port, pid, e.process.as_str());
                    proof {
                        model::lemma_texts_push(out@, text);
                    }
                    out.push(text);
                }
            }
            i += 1;
        }
        assert(es.take(i as int) =~= es);
        out
    }

    /// Whether a listener found on the second look stands on a freed port
    /// and was not dealt with itself.
    fn is_restart(&self, e: &Entry) -> (r: bool)
        ensures
            r == restarts(e@, self@.freed, self@.handled),
    {
        if e.docker.is_some() || !has_number(&self.freed, e.port) {
            return false;
        }
        match e.pid {
            Some(pid) => !has_number(&self.handled, pid),
            None => false,
        }
    }

    /// Whether `a` already announced the restart that `b` shows.
    fn announced(&self, a: &Entry, b: &Entry) -> (r: bool)
        ensures
            r == same_restart(a@, b@, self@.freed, self@.handled),
    {
        if !self.is_restart(a) || a.proto != b.proto || a.port != b.port {
            return false;
        }
        match (a.pid, b.pid) {
            (Some(x), Some(y)) => x == y,
            (None, None) => true,
            _ => false,
        }
    }
}

} // verus!
