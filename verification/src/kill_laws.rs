//! What holds of every run of `lport kill`, whatever the user answers and
//! whatever the processes do.

use vstd::prelude::*;
use crate::kill;
use crate::kill::{ActionView, EventView, KillState, Outcome, Phase, Step, Visit};
use crate::messages;
use crate::messages::{LineView, Signal};
use crate::model::EntryView;

verus! {

/// Where a run stands after `events`.
#[verifier::opaque]
pub open spec fn run(start: KillState, events: Seq<EventView>) -> Step
    decreases events.len(),
{
    if events.len() == 0 {
        start.proceed()
    } else {
        run(start, events.drop_last()).state.react(events.last())
    }
}

/// Whether each of `events` is what the run waited for when it came.
pub open spec fn legal(start: KillState, events: Seq<EventView>) -> bool
    decreases events.len(),
{
    events.len() == 0 || (legal(start, events.drop_last()) && run(
        start,
        events.drop_last(),
    ).state.expects(events.last()))
}

/// Where a run stands after the first `k` of `events`.
pub open spec fn after(start: KillState, events: Seq<EventView>, k: int) -> Step {
    run(start, events.take(k))
}

/// The request that a run begins with.
pub open spec fn fresh(
    start: KillState,
    entries: Seq<EntryView>,
    ports: Seq<u32>,
) -> bool {
    entries.len() <= usize::MAX && start == KillState::initial(
        entries,
        ports,
        start.force,
        start.yes,
        start.tty,
    )
}

/// Whether `event` is a `yes` of the user.
pub open spec fn said_yes(event: EventView) -> bool {
    event is Answer && event->yes
}

/// Whether `event` is the end of a wait with the process gone.
pub open spec fn seen_gone(event: EventView) -> bool {
    event is Waited && event->gone
}

/// Whether the run is busy with a process.
spec fn active(st: KillState) -> bool {
    st.phase != Phase::Ready && st.phase != Phase::Done
}

spec fn rank(phase: Phase) -> nat {
    match phase {
        Phase::Ready => 0,
        Phase::Confirming => 1,
        Phase::Signaling => 2,
        Phase::Waiting => 3,
        Phase::AskingEscalation => 4,
        Phase::Escalating => 5,
        Phase::WaitingEscalated => 6,
        Phase::Done => 1,
    }
}

/// How far a run has come; every event takes it further.
spec fn progress(st: KillState) -> nat {
    st.at * 6 + rank(st.phase)
}

spec fn inv(st: KillState) -> bool {
    &&& st.wf()
    &&& st.handled.no_duplicates()
    &&& active(st) ==> st.handled.len() > 0 && st.handled.last() == st.pid()
    &&& st.phase == Phase::AskingEscalation || st.phase == Phase::Escalating || st.phase
        == Phase::WaitingEscalated ==> st.tty && !st.yes && !st.force
    &&& st.phase == Phase::Confirming ==> st.tty && !st.yes
    &&& freed_fits(st)
}

/// The freed ports are those of the visits that ended with a dead process.
spec fn freed_fits(st: KillState) -> bool {
    forall|port: u32|
        st.freed.contains(port) <==> exists|i: int|
            0 <= i < st.outcomes.len() && (#[trigger] st.outcomes[i]) == Outcome::Killed
                && visit_port(st.visits[i]) == port
}

/// The port that a visit is about.
pub open spec fn visit_port(v: Visit) -> u32 {
    match v {
        Visit::NoListener { port } => port,
        Visit::Target { port, .. } => port,
    }
}

spec fn same_request(a: KillState, b: KillState) -> bool {
    &&& a.entries == b.entries
    &&& a.visits == b.visits
    &&& a.force == b.force
    &&& a.yes == b.yes
    &&& a.tty == b.tty
}

/// What a step onward from `a` keeps and adds.
spec fn onward(a: KillState, b: Step) -> bool {
    &&& inv(b.state)
    &&& same_request(a, b.state)
    &&& progress(a) < progress(b.state)
    &&& a.at <= b.state.at
    &&& a.handled.is_prefix_of(b.state.handled)
    &&& a.at < b.state.at && active(b.state) ==> a.handled.len() < b.state.handled.len()
    &&& a.outcomes.is_prefix_of(b.state.outcomes)
    &&& action_fits(b)
}

/// The action that goes with each phase.
spec fn action_fits(b: Step) -> bool {
    match b.action {
        ActionView::Ask { .. } => b.state.phase == Phase::Confirming || b.state.phase
            == Phase::AskingEscalation,
        ActionView::Send { pid, signal } => {
            &&& pid == b.state.pid()
            &&& b.state.phase == Phase::Signaling && signal == b.state.signal() || b.state.phase
                == Phase::Escalating && signal == Signal::Kill
        },
        ActionView::Wait { pid, .. } => pid == b.state.pid() && (b.state.phase == Phase::Waiting
            || b.state.phase == Phase::WaitingEscalated),
        ActionView::Finish { code } => b.state.phase == Phase::Done && code == b.state.code(),
    }
}

proof fn lemma_push_prefix<A>(s: Seq<A>, x: A, t: Seq<A>)
    requires
        s.push(x).is_prefix_of(t),
    ensures
        s.is_prefix_of(t),
        s.len() < t.len(),
        t[s.len() as int] == x,
{
    let p = s.push(x);
    assert(p == t.subrange(0, p.len() as int));
    assert(s =~= t.subrange(0, s.len() as int)) by {
        assert forall|i: int| 0 <= i < s.len() implies s[i] == t[i] by {
            assert(p[i] == t.subrange(0, p.len() as int)[i]);
        }
    }
    assert(p[s.len() as int] == t.subrange(0, p.len() as int)[s.len() as int]);
}

proof fn lemma_closing_keeps_freed(st: KillState, o: Outcome)
    requires
        st.wf(),
        st.at < st.visits.len(),
        freed_fits(st),
        o != Outcome::Killed,
    ensures
        freed_fits(st.closing(o)),
{
    let t = st.closing(o);
    assert forall|port: u32| t.freed.contains(port) <==> exists|i: int|
        0 <= i < t.outcomes.len() && (#[trigger] t.outcomes[i]) == Outcome::Killed && visit_port(
            t.visits[i],
        ) == port by {
        if t.freed.contains(port) {
            let i = choose|i: int|
                0 <= i < st.outcomes.len() && (#[trigger] st.outcomes[i]) == Outcome::Killed
                    && visit_port(st.visits[i]) == port;
            assert(t.outcomes[i] == Outcome::Killed);
        }
        if exists|i: int|
            0 <= i < t.outcomes.len() && (#[trigger] t.outcomes[i]) == Outcome::Killed
                && visit_port(t.visits[i]) == port {
            let i = choose|i: int|
                0 <= i < t.outcomes.len() && (#[trigger] t.outcomes[i]) == Outcome::Killed
                    && visit_port(t.visits[i]) == port;
            assert(i < st.outcomes.len());
            assert(st.outcomes[i] == Outcome::Killed);
        }
    }
}

proof fn lemma_freeing_fits(st: KillState)
    requires
        st.wf(),
        active(st),
        freed_fits(st),
    ensures
        freed_fits(st.freeing(st.port()).closing(Outcome::Killed)),
{
    let t = st.freeing(st.port()).closing(Outcome::Killed);
    assert forall|port: u32| t.freed.contains(port) <==> exists|i: int|
        0 <= i < t.outcomes.len() && (#[trigger] t.outcomes[i]) == Outcome::Killed && visit_port(
            t.visits[i],
        ) == port by {
        if t.freed.contains(port) {
            let k = choose|k: int| 0 <= k < t.freed.len() && t.freed[k] == port;
            if k < st.freed.len() {
                assert(st.freed[k] == port);
                assert(st.freed.contains(port));
                let i = choose|i: int|
                    0 <= i < st.outcomes.len() && (#[trigger] st.outcomes[i]) == Outcome::Killed
                        && visit_port(st.visits[i]) == port;
                assert(t.outcomes[i] == Outcome::Killed);
            } else {
                assert(t.outcomes[st.at as int] == Outcome::Killed);
                assert(visit_port(t.visits[st.at as int]) == port);
            }
        }
        if exists|i: int|
            0 <= i < t.outcomes.len() && (#[trigger] t.outcomes[i]) == Outcome::Killed
                && visit_port(t.visits[i]) == port {
            let i = choose|i: int|
                0 <= i < t.outcomes.len() && (#[trigger] t.outcomes[i]) == Outcome::Killed
                    && visit_port(t.visits[i]) == port;
            if i < st.outcomes.len() {
                assert(st.outcomes[i] == Outcome::Killed);
                assert(st.freed.contains(port));
                let k = choose|k: int| 0 <= k < st.freed.len() && st.freed[k] == port;
                assert(t.freed[k] == port);
            } else {
                assert(t.freed[st.freed.len() as int] == port);
            }
        }
    }
}

/// Going on from a visit that is over.
proof fn lemma_proceed(st: KillState)
    requires
        inv(st),
        st.phase == Phase::Ready,
    ensures
        onward(st, st.proceed()),
        st.proceed().action is Finish || st.proceed().state.phase == Phase::Confirming || (
        st.proceed().state.phase == Phase::Signaling && st.yes),
        active(st.proceed().state) ==> st.handled.len() < st.proceed().state.handled.len(),
    decreases st.visits.len() - st.at,
{
    if st.at >= st.visits.len() {
        assert(st.handled.is_prefix_of(st.proceed().state.handled));
    } else {
        match st.visits[st.at as int] {
            Visit::NoListener { port } => {
                lemma_closing_keeps_freed(st, Outcome::NoListener);
                lemma_proceed(st.closing(Outcome::NoListener));
                lemma_push_prefix(
                    st.outcomes,
                    Outcome::NoListener,
                    st.proceed().state.outcomes,
                );
            },
            Visit::Target { port, index } => {
                let e = st.entries[index as int];
                match (e.docker, e.pid) {
                    (Some(d), _) => {
                        lemma_closing_keeps_freed(st, Outcome::Docker);
                        lemma_proceed(st.closing(Outcome::Docker));
                        lemma_push_prefix(st.outcomes, Outcome::Docker, st.proceed().state.outcomes);
                    },
                    (None, None) => {
                        lemma_closing_keeps_freed(st, Outcome::PidUnknown);
                        lemma_proceed(st.closing(Outcome::PidUnknown));
                        lemma_push_prefix(
                            st.outcomes,
                            Outcome::PidUnknown,
                            st.proceed().state.outcomes,
                        );
                    },
                    (None, Some(pid)) => {
                        if st.handled.contains(pid) {
                            lemma_closing_keeps_freed(st, Outcome::AlreadyHandled);
                            lemma_proceed(st.closing(Outcome::AlreadyHandled));
                            lemma_push_prefix(
                                st.outcomes,
                                Outcome::AlreadyHandled,
                                st.proceed().state.outcomes,
                            );
                        } else {
                            let h = st.handling(pid);
                            assert(h.handled.no_duplicates());
                            assert(st.handled =~= h.handled.subrange(0, st.handled.len() as int));
                            if !st.yes && !st.tty {
                                lemma_closing_keeps_freed(h, Outcome::Refused);
                                lemma_proceed(h.closing(Outcome::Refused));
                                lemma_push_prefix(st.handled, pid, st.proceed().state.handled);
                                lemma_push_prefix(
                                    st.outcomes,
                                    Outcome::Refused,
                                    st.proceed().state.outcomes,
                                );
                            } else {
                                assert(freed_fits(st.proceed().state));
                                assert(st.outcomes =~= st.outcomes.subrange(
                                    0,
                                    st.outcomes.len() as int,
                                ));
                            }
                        }
                    },
                }
            },
        }
    }
}

/// Ending the visit of a process with `o` and going on.
proof fn lemma_close(st: KillState, o: Outcome)
    requires
        inv(st),
        active(st),
        o != Outcome::Killed,
    ensures
        onward(st, st.closing(o).proceed()),
        st.closing(o).proceed().state.outcomes[st.at as int] == o,
        st.closing(o).proceed().state.outcomes.len() > st.at,
        st.closing(o).proceed().state.at > st.at,
        st.closing(o).proceed().state.phase != Phase::Signaling || st.yes,
        st.closing(o).proceed().action !is Wait,
        st.closing(o).proceed().state.phase != Phase::Escalating,
{
    lemma_closing_keeps_freed(st, o);
    lemma_proceed(st.closing(o));
    lemma_push_prefix(st.outcomes, o, st.closing(o).proceed().state.outcomes);
}

/// Taking an event on.
proof fn lemma_react(st: KillState, event: EventView)
    requires
        inv(st),
        st.expects(event),
    ensures
        onward(st, st.react(event)),
        st.react(event).state.at == st.at ==> st.react(event).state.handled == st.handled
            && st.react(event).state.outcomes == st.outcomes,
        st.react(event).state.at > st.at ==> st.react(event).state.outcomes.len() > st.at
            && (st.react(event).state.outcomes[st.at as int] == Outcome::Killed <==> seen_gone(event)),
        st.react(event).state.phase == Phase::Signaling ==> st.yes || (st.phase == Phase::Confirming
            && said_yes(event)),
        st.react(event).state.phase == Phase::Escalating ==> said_yes(event) && st.phase == Phase::AskingEscalation,
{
    let r = st.react(event);
    assert(st.handled =~= st.handled.subrange(0, st.handled.len() as int));
    assert(st.outcomes =~= st.outcomes.subrange(0, st.outcomes.len() as int));
    match event {
        EventView::Answer { yes } => {
            if yes {
                assert(freed_fits(r.state));
            } else if st.phase == Phase::Confirming {
                lemma_close(st, Outcome::Skipped);
            } else {
                lemma_close(st, Outcome::EscalationDeclined);
            }
        },
        EventView::Sent => {
            assert(freed_fits(r.state));
        },
        EventView::Failed { code, stderr } => {
            lemma_close(st, Outcome::SignalFailed);
        },
        EventView::NotSpawned { message } => {
            lemma_close(st, Outcome::SignalFailed);
        },
        EventView::Waited { gone } => {
            if gone {
                let t = st.freeing(st.port()).closing(Outcome::Killed);
                lemma_freeing_fits(st);
                lemma_proceed(t);
                lemma_push_prefix(st.outcomes, Outcome::Killed, t.proceed().state.outcomes);
            } else if st.signal() == Signal::Kill || st.phase == Phase::WaitingEscalated || st.yes
                || !st.tty {
                lemma_close(st, Outcome::Survived);
            } else {
                assert(freed_fits(r.state));
            }
        },
    }
}

proof fn lemma_run(start: KillState, events: Seq<EventView>)
    requires
        inv(start),
        start.phase == Phase::Ready,
        legal(start, events),
    ensures
        onward(start, run(start, events)),
        progress(run(start, events).state) > events.len(),
    decreases events.len(),
{
    reveal(run);
    if events.len() == 0 {
        lemma_proceed(start);
    } else {
        lemma_run(start, events.drop_last());
        let a = run(start, events.drop_last()).state;
        lemma_react(a, events.last());
        lemma_onward_trans(start, run(start, events.drop_last()), run(start, events));
    }
}

proof fn lemma_prefix_trans<A>(a: Seq<A>, b: Seq<A>, c: Seq<A>)
    requires
        a.is_prefix_of(b),
        b.is_prefix_of(c),
    ensures
        a.is_prefix_of(c),
        a.len() <= c.len(),
        forall|i: int| 0 <= i < a.len() ==> a[i] == c[i],
{
    assert forall|i: int| 0 <= i < a.len() implies a[i] == c[i] by {
        assert(a[i] == b.subrange(0, a.len() as int)[i]);
        assert(b[i] == c.subrange(0, b.len() as int)[i]);
    }
    assert(a =~= c.subrange(0, a.len() as int));
}

proof fn lemma_legal_take(start: KillState, events: Seq<EventView>, k: int)
    requires
        legal(start, events),
        0 <= k <= events.len(),
    ensures
        legal(start, events.take(k)),
    decreases events.len() - k,
{
    if k == events.len() {
        assert(events.take(k) =~= events);
    } else {
        lemma_legal_take(start, events, k + 1);
        assert(events.take(k + 1).drop_last() =~= events.take(k));
    }
}

/// One event further.
proof fn lemma_next(start: KillState, events: Seq<EventView>, k: int)
    requires
        inv(start),
        start.phase == Phase::Ready,
        legal(start, events),
        0 < k <= events.len(),
    ensures
        inv(after(start, events, k - 1).state),
        active(after(start, events, k - 1).state),
        onward(after(start, events, k - 1).state, after(start, events, k)),
{
    reveal(run);
    lemma_legal_take(start, events, k);
    lemma_legal_take(start, events, k - 1);
    let t = events.take(k);
    assert(t.drop_last() =~= events.take(k - 1));
    lemma_run(start, events.take(k - 1));
    lemma_react(after(start, events, k - 1).state, t.last());
}

/// Between two points of a run: what is past stays, and a later visit to a
/// process has put a process behind those of the earlier point.
proof fn lemma_between(start: KillState, events: Seq<EventView>, j: int, k: int)
    requires
        inv(start),
        start.phase == Phase::Ready,
        legal(start, events),
        0 <= j < k <= events.len(),
    ensures
        inv(after(start, events, j).state),
        onward(after(start, events, j).state, after(start, events, k)),
    decreases k - j,
{
    lemma_next(start, events, k);
    if j < k - 1 {
        lemma_between(start, events, j, k - 1);
        lemma_onward_trans(
            after(start, events, j).state,
            after(start, events, k - 1),
            after(start, events, k),
        );
    }
}

/// Two stretches of a run make one, where the first ends at a process.
proof fn lemma_onward_trans(a: KillState, m: Step, b: Step)
    requires
        onward(a, m),
        onward(m.state, b),
        active(m.state),
    ensures
        onward(a, b),
{
    lemma_prefix_trans(a.handled, m.state.handled, b.state.handled);
    lemma_prefix_trans(m.state.handled, m.state.handled, b.state.handled);
    lemma_prefix_trans(a.handled, a.handled, m.state.handled);
    lemma_prefix_trans(a.outcomes, m.state.outcomes, b.state.outcomes);
}

proof fn lemma_targets(entries: Seq<EntryView>, port: u32, from: int, i: int)
    requires
        0 <= from,
        entries.len() <= usize::MAX,
        0 <= i < kill::targets(entries, port, from).len(),
    ensures
        kill::targets(entries, port, from)[i] is Target,
        kill::targets(entries, port, from)[i]->Target_port == port,
        kill::targets(entries, port, from)[i]->index < entries.len(),
        entries[kill::targets(entries, port, from)[i]->index as int].port == port,
    decreases entries.len() - from,
{
    if from < entries.len() {
        if entries[from].port == port {
            if i > 0 {
                lemma_targets(entries, port, from + 1, i - 1);
            }
        } else {
            lemma_targets(entries, port, from + 1, i);
        }
    }
}

/// Every visit is about a requested port, and a visit to a listener is about
/// one on that port.
proof fn lemma_visits(entries: Seq<EntryView>, ports: Seq<u32>, i: int)
    requires
        entries.len() <= usize::MAX,
        0 <= i < kill::all_visits(entries, ports).len(),
    ensures
        ports.contains(visit_port(kill::all_visits(entries, ports)[i])),
        kill::all_visits(entries, ports)[i] is Target ==> {
            let index = kill::all_visits(entries, ports)[i]->index;
            index < entries.len() && entries[index as int].port == visit_port(
                kill::all_visits(entries, ports)[i],
            )
        },
    decreases ports.len(),
{
    let early = kill::all_visits(entries, ports.drop_last());
    if i < early.len() {
        lemma_visits(entries, ports.drop_last(), i);
        let p = visit_port(early[i]);
        let k = choose|k: int| 0 <= k < ports.drop_last().len() && ports.drop_last()[k] == p;
        assert(ports[k] == p);
    } else {
        let port = ports.last();
        assert(ports[ports.len() - 1] == port);
        if kill::targets(entries, port, 0).len() > 0 {
            lemma_targets(entries, port, 0, i - early.len());
        }
    }
}

proof fn lemma_fresh(start: KillState, entries: Seq<EntryView>, ports: Seq<u32>)
    requires
        fresh(start, entries, ports),
    ensures
        inv(start),
        start.phase == Phase::Ready,
{
    assert forall|i: int|
        0 <= i < start.visits.len() && (#[trigger] start.visits[i]) is Target implies start.visits[i]->index
        < start.entries.len() by {
        lemma_visits(entries, ports, i);
    }
}

// ---------------------------------------------------------------------------
// The laws
// ---------------------------------------------------------------------------

/// A process gets one signal: if two signals of a run go to one process, the
/// second is the escalation of the first.
pub proof fn law_one_signal_per_process(
    start: KillState,
    entries: Seq<EntryView>,
    ports: Seq<u32>,
    events: Seq<EventView>,
    j: int,
    k: int,
)
    requires
        fresh(start, entries, ports),
        legal(start, events),
        0 <= j < k <= events.len(),
        after(start, events, j).action is Send,
        after(start, events, k).action is Send,
        after(start, events, j).action->Send_pid == after(start, events, k).action->Send_pid,
    ensures
        after(start, events, j).state.phase == Phase::Signaling,
        after(start, events, k).state.phase == Phase::Escalating,
        after(start, events, j).state.at == after(start, events, k).state.at,
{
    lemma_fresh(start, entries, ports);
    lemma_between(start, events, j, k);
    lemma_legal_take(start, events, j);
    lemma_run(start, events.take(j));
    let a = after(start, events, j).state;
    let b = after(start, events, k).state;
    if a.at < b.at {
        let n = a.handled.len() - 1;
        lemma_prefix_trans(a.handled, a.handled, b.handled);
        assert(b.handled[n] == a.pid());
        assert(b.handled[b.handled.len() - 1] == b.pid());
    }
}

/// A process is asked about once: whenever a run asks twice before a signal,
/// it asks about two processes.
pub proof fn law_one_confirmation_per_process(
    start: KillState,
    entries: Seq<EntryView>,
    ports: Seq<u32>,
    events: Seq<EventView>,
    j: int,
    k: int,
)
    requires
        fresh(start, entries, ports),
        legal(start, events),
        0 <= j < k <= events.len(),
        after(start, events, j).state.phase == Phase::Confirming,
        after(start, events, k).state.phase == Phase::Confirming,
    ensures
        after(start, events, j).state.pid() != after(start, events, k).state.pid(),
{
    lemma_fresh(start, entries, ports);
    lemma_between(start, events, j, k);
    let a = after(start, events, j).state;
    let b = after(start, events, k).state;
    let n = a.handled.len() - 1;
    lemma_prefix_trans(a.handled, a.handled, b.handled);
    assert(b.handled[n] == a.pid());
    assert(b.handled[b.handled.len() - 1] == b.pid());
}

/// Whoever is signalled is a process that listens on a requested port and
/// stands outside any container.
pub proof fn law_only_requested_processes_are_signalled(
    start: KillState,
    entries: Seq<EntryView>,
    ports: Seq<u32>,
    events: Seq<EventView>,
)
    requires
        fresh(start, entries, ports),
        legal(start, events),
        run(start, events).action is Send,
    ensures
        exists|i: int|
            0 <= i < entries.len() && (#[trigger] entries[i]).pid == Some(
                run(start, events).action->Send_pid,
            ) && entries[i].docker is None && ports.contains(entries[i].port),
{
    lemma_fresh(start, entries, ports);
    lemma_run(start, events);
    let st = run(start, events).state;
    lemma_visits(entries, ports, st.at as int);
    let i = st.visits[st.at as int]->index as int;
    assert(entries[i].pid == Some(run(start, events).action->Send_pid));
}

/// No signal without consent: a signal comes by the user's standing consent
/// or right after a `yes`; and SIGKILL comes because it was asked for on the
/// command line or right after a `yes` to the escalation.
pub proof fn law_signals_need_consent(
    start: KillState,
    entries: Seq<EntryView>,
    ports: Seq<u32>,
    events: Seq<EventView>,
)
    requires
        fresh(start, entries, ports),
        legal(start, events),
        run(start, events).action is Send,
    ensures
        start.yes || (events.len() > 0 && said_yes(events.last())),
        run(start, events).action->signal == Signal::Kill ==> start.force || (events.len() > 0
            && said_yes(events.last()) && after(
            start,
            events,
            events.len() - 1,
        ).state.phase == Phase::AskingEscalation),
{
    reveal(run);
    lemma_fresh(start, entries, ports);
    lemma_run(start, events);
    if events.len() == 0 {
        lemma_proceed(start);
    } else {
        lemma_run(start, events.drop_last());
        assert(events.take(events.len() - 1) =~= events.drop_last());
        lemma_react(run(start, events.drop_last()).state, events.last());
    }
}

/// A run that was told not to ask, or that has no terminal to ask on, asks
/// nothing.
pub proof fn law_asks_only_on_a_terminal(
    start: KillState,
    entries: Seq<EntryView>,
    ports: Seq<u32>,
    events: Seq<EventView>,
)
    requires
        fresh(start, entries, ports),
        legal(start, events),
        run(start, events).action is Ask,
    ensures
        start.tty && !start.yes,
{
    lemma_fresh(start, entries, ports);
    lemma_run(start, events);
}

/// The exit code is honest: a run ends once every visit has its outcome, and
/// it ends with 0 exactly where each of them is a confirmed death, a process
/// the user chose to leave alone, or one dealt with before.
pub proof fn law_exit_code(
    start: KillState,
    entries: Seq<EntryView>,
    ports: Seq<u32>,
    events: Seq<EventView>,
)
    requires
        fresh(start, entries, ports),
        legal(start, events),
        run(start, events).action is Finish,
    ensures
        run(start, events).state.outcomes.len() == kill::all_visits(entries, ports).len(),
        run(start, events).action->code == 0 || run(start, events).action->code == 1,
        run(start, events).action->code == 0 <==> forall|i: int|
            0 <= i < run(start, events).state.outcomes.len() ==> ((
            #[trigger] run(start, events).state.outcomes[i]) == Outcome::Killed || run(
                start,
                events,
            ).state.outcomes[i] == Outcome::Skipped || run(start, events).state.outcomes[i]
                == Outcome::AlreadyHandled),
{
    lemma_fresh(start, entries, ports);
    lemma_run(start, events);
    let os = run(start, events).state.outcomes;
    assert forall|i: int| 0 <= i < os.len() implies (!(#[trigger] os[i]).fails() <==> (os[i]
        == Outcome::Killed || os[i] == Outcome::Skipped || os[i] == Outcome::AlreadyHandled)) by {}
    if kill::any_failure(os) {
        let i = choose|i: int| 0 <= i < os.len() && (#[trigger] os[i]).fails();
        assert(os[i].fails());
    }
}

/// Delivered is not obeyed: a process counts as killed only where a wait for
/// that very visit ended with the process gone.
pub proof fn law_killed_means_seen_gone(
    start: KillState,
    entries: Seq<EntryView>,
    ports: Seq<u32>,
    events: Seq<EventView>,
    i: int,
)
    requires
        fresh(start, entries, ports),
        legal(start, events),
        0 <= i < run(start, events).state.outcomes.len(),
        run(start, events).state.outcomes[i] == Outcome::Killed,
    ensures
        exists|k: int|
            0 <= k < events.len() && seen_gone(#[trigger] events[k])
                && after(start, events, k).state.at == i && after(start, events, k).action is Wait,
    decreases events.len(),
{
    reveal(run);
    lemma_fresh(start, entries, ports);
    lemma_run(start, events);
    if events.len() == 0 {
        lemma_proceed_never_kills(start);
        assert(false);
    } else {
        let early = events.drop_last();
        lemma_run(start, early);
        let a = run(start, early).state;
        let b = run(start, events).state;
        lemma_react(a, events.last());
        let n = events.len() - 1;
        assert(events.take(n as int) =~= early);
        if i < a.outcomes.len() {
            lemma_prefix_trans(a.outcomes, a.outcomes, b.outcomes);
            law_killed_means_seen_gone(start, entries, ports, early, i);
            let k = choose|k: int|
                0 <= k < early.len() && seen_gone(#[trigger] early[k])
                    && after(start, early, k).state.at == i && after(start, early, k).action is Wait;
            assert(events[k] == early[k]);
            assert(events.take(k) =~= early.take(k));
        } else if i == a.at {
            assert(seen_gone(events[n]));
            assert(after(start, events, n as int).state.at == i);
            assert(after(start, events, n as int).action is Wait);
        } else {
            lemma_react_kills_at_most_here(a, events.last(), i);
            assert(false);
        }
    }
}

/// Going on confirms no death.
proof fn lemma_proceed_never_kills(st: KillState)
    requires
        inv(st),
        st.phase == Phase::Ready,
    ensures
        forall|i: int|
            st.outcomes.len() <= i < st.proceed().state.outcomes.len() ==> (
            #[trigger] st.proceed().state.outcomes[i]) != Outcome::Killed,
    decreases st.visits.len() - st.at,
{
    if st.at < st.visits.len() {
        match st.visits[st.at as int] {
            Visit::NoListener { port } => {
                lemma_step_never_kills(st, st, Outcome::NoListener);
            },
            Visit::Target { port, index } => {
                let e = st.entries[index as int];
                match (e.docker, e.pid) {
                    (Some(d), _) => {
                        lemma_step_never_kills(st, st, Outcome::Docker);
                    },
                    (None, None) => {
                        lemma_step_never_kills(st, st, Outcome::PidUnknown);
                    },
                    (None, Some(pid)) => {
                        if st.handled.contains(pid) {
                            lemma_step_never_kills(st, st, Outcome::AlreadyHandled);
                        } else if !st.yes && !st.tty {
                            let h = st.handling(pid);
                            assert(h.handled.no_duplicates());
                            lemma_step_never_kills(st, h, Outcome::Refused);
                        }
                    },
                }
            },
        }
    }
}

proof fn lemma_step_never_kills(st: KillState, h: KillState, o: Outcome)
    requires
        inv(h),
        h.phase == Phase::Ready,
        h.at < h.visits.len(),
        st.at == h.at,
        st.visits == h.visits,
        st.outcomes == h.outcomes,
        o != Outcome::Killed,
    ensures
        forall|i: int|
            st.outcomes.len() <= i < h.closing(o).proceed().state.outcomes.len() ==> (
            #[trigger] h.closing(o).proceed().state.outcomes[i]) != Outcome::Killed,
    decreases h.visits.len() - h.at, 0int,
{
    let t = h.closing(o);
    lemma_closing_keeps_freed(h, o);
    lemma_proceed(t);
    lemma_proceed_never_kills(t);
    lemma_push_prefix(h.outcomes, o, t.proceed().state.outcomes);
}

proof fn lemma_react_kills_at_most_here(st: KillState, event: EventView, i: int)
    requires
        inv(st),
        st.expects(event),
        st.at < i < st.react(event).state.outcomes.len(),
    ensures
        st.react(event).state.outcomes[i] != Outcome::Killed,
{
    match event {
        EventView::Answer { yes } => {
            if !yes {
                let o = if st.phase == Phase::Confirming {
                    Outcome::Skipped
                } else {
                    Outcome::EscalationDeclined
                };
                lemma_closing_keeps_freed(st, o);
                lemma_proceed_never_kills(st.closing(o));
            }
        },
        EventView::Sent => {},
        EventView::Failed { code, stderr } => {
            lemma_closing_keeps_freed(st, Outcome::SignalFailed);
            lemma_proceed_never_kills(st.closing(Outcome::SignalFailed));
        },
        EventView::NotSpawned { message } => {
            lemma_closing_keeps_freed(st, Outcome::SignalFailed);
            lemma_proceed_never_kills(st.closing(Outcome::SignalFailed));
        },
        EventView::Waited { gone } => {
            if gone {
                lemma_freeing_fits(st);
                lemma_proceed_never_kills(st.freeing(st.port()).closing(Outcome::Killed));
            } else {
                lemma_closing_keeps_freed(st, Outcome::Survived);
                lemma_proceed_never_kills(st.closing(Outcome::Survived));
            }
        },
    }
}

/// The ports looked at again for a restart are those with a confirmed death.
pub proof fn law_freed_ports(
    start: KillState,
    entries: Seq<EntryView>,
    ports: Seq<u32>,
    events: Seq<EventView>,
    port: u32,
)
    requires
        fresh(start, entries, ports),
        legal(start, events),
    ensures
        run(start, events).state.freed.contains(port) <==> exists|i: int|
            0 <= i < run(start, events).state.outcomes.len() && (
            #[trigger] run(start, events).state.outcomes[i]) == Outcome::Killed && visit_port(
                kill::all_visits(entries, ports)[i],
            ) == port,
{
    lemma_fresh(start, entries, ports);
    lemma_run(start, events);
}

/// A run ends: no more than six events per visit can come.
pub proof fn law_runs_end(
    start: KillState,
    entries: Seq<EntryView>,
    ports: Seq<u32>,
    events: Seq<EventView>,
)
    requires
        fresh(start, entries, ports),
        legal(start, events),
    ensures
        events.len() <= 6 * kill::all_visits(entries, ports).len(),
        run(start, events).action is Finish <==> run(start, events).state.phase == Phase::Done,
{
    lemma_fresh(start, entries, ports);
    lemma_run(start, events);
}

/// Every port asked for is visited: a listener on it is dealt with, or its
/// absence is reported.
pub proof fn law_every_port_is_visited(entries: Seq<EntryView>, ports: Seq<u32>, p: int)
    requires
        0 <= p < ports.len(),
        entries.len() <= usize::MAX,
    ensures
        exists|i: int|
            0 <= i < kill::all_visits(entries, ports).len() && visit_port(
                #[trigger] kill::all_visits(entries, ports)[i],
            ) == ports[p],
    decreases ports.len(),
{
    let early = kill::all_visits(entries, ports.drop_last());
    let late = kill::port_visits(entries, ports.last());
    let all = kill::all_visits(entries, ports);
    if p < ports.len() - 1 {
        law_every_port_is_visited(entries, ports.drop_last(), p);
        let i = choose|i: int| 0 <= i < early.len() && visit_port(#[trigger] early[i]) == ports[p];
        assert(all[i] == early[i]);
    } else {
        if kill::targets(entries, ports.last(), 0).len() > 0 {
            lemma_targets(entries, ports.last(), 0, 0);
        }
        assert(all[early.len() as int] == late[0]);
        assert(visit_port(all[early.len() as int]) == ports[p]);
    }
}

// ---------------------------------------------------------------------------
// Nobody is left out
// ---------------------------------------------------------------------------

proof fn lemma_target_of(entries: Seq<EntryView>, port: u32, from: int, i: int)
    requires
        0 <= from <= i < entries.len() <= usize::MAX,
        entries[i].port == port,
    ensures
        exists|k: int|
            0 <= k < kill::targets(entries, port, from).len() && (#[trigger] kill::targets(
                entries,
                port,
                from,
            )[k]) == (Visit::Target { port, index: i as usize }),
    decreases entries.len() - from,
{
    let v = Visit::Target { port, index: i as usize };
    let ts = kill::targets(entries, port, from);
    let rest = kill::targets(entries, port, from + 1);
    if from == i {
        assert(ts[0] == v);
    } else {
        lemma_target_of(entries, port, from + 1, i);
        let k = choose|k: int| 0 <= k < rest.len() && (#[trigger] rest[k]) == v;
        if entries[from].port == port {
            assert(ts[k + 1] == rest[k]);
        } else {
            assert(ts[k] == v);
        }
    }
}

/// Every listener on a requested port is visited, however many there are.
pub proof fn law_every_listener_is_visited(
    entries: Seq<EntryView>,
    ports: Seq<u32>,
    p: int,
    i: int,
)
    requires
        0 <= p < ports.len(),
        0 <= i < entries.len() <= usize::MAX,
        entries[i].port == ports[p],
    ensures
        kill::all_visits(entries, ports).contains(
            (Visit::Target { port: ports[p], index: i as usize }),
        ),
    decreases ports.len(),
{
    let v = Visit::Target { port: ports[p], index: i as usize };
    let early = kill::all_visits(entries, ports.drop_last());
    let all = kill::all_visits(entries, ports);
    if p < ports.len() - 1 {
        law_every_listener_is_visited(entries, ports.drop_last(), p, i);
        let k = choose|k: int| 0 <= k < early.len() && early[k] == v;
        assert(all[k] == v);
    } else {
        let ts = kill::targets(entries, ports.last(), 0);
        lemma_target_of(entries, ports.last(), 0, i);
        let k = choose|k: int| 0 <= k < ts.len() && (#[trigger] ts[k]) == v;
        assert(all[early.len() + k] == ts[k]);
    }
}

/// A port is reported as free exactly if nothing listens on it.
pub proof fn law_free_ports_are_reported(entries: Seq<EntryView>, ports: Seq<u32>, port: u32)
    requires
        entries.len() <= usize::MAX,
    ensures
        kill::all_visits(entries, ports).contains((Visit::NoListener { port })) <==> (
        ports.contains(port) && forall|i: int|
            0 <= i < entries.len() ==> (#[trigger] entries[i]).port != port),
    decreases ports.len(),
{
    let v = Visit::NoListener { port };
    let all = kill::all_visits(entries, ports);
    if ports.len() > 0 {
        let rest = ports.drop_last();
        let last = ports.last();
        let early = kill::all_visits(entries, rest);
        let late = kill::port_visits(entries, last);
        law_free_ports_are_reported(entries, rest, port);
        lemma_no_targets(entries, last, 0);
        if early.contains(v) {
            let k = choose|k: int| 0 <= k < early.len() && early[k] == v;
            assert(all[k] == v);
            let m = choose|m: int| 0 <= m < rest.len() && rest[m] == port;
            assert(ports[m] == port);
        }
        if all.contains(v) {
            let k = choose|k: int| 0 <= k < all.len() && all[k] == v;
            if k < early.len() {
                assert(early[k] == v);
            } else {
                assert(late[k - early.len()] == v);
                if kill::targets(entries, last, 0).len() > 0 {
                    lemma_targets(entries, last, 0, k - early.len());
                }
                assert(ports[ports.len() - 1] == port);
            }
        }
        if ports.contains(port) && forall|i: int|
            0 <= i < entries.len() ==> (#[trigger] entries[i]).port != port {
            let m = choose|m: int| 0 <= m < ports.len() && ports[m] == port;
            if m < rest.len() {
                assert(rest[m] == port);
            } else {
                assert(all[early.len() as int] == late[0]);
            }
        }
    } else {
        assert(!all.contains(v));
        assert(!ports.contains(port));
    }
}

proof fn lemma_no_targets(entries: Seq<EntryView>, port: u32, from: int)
    requires
        0 <= from <= entries.len() <= usize::MAX,
    ensures
        kill::targets(entries, port, from).len() == 0 <==> forall|i: int|
            from <= i < entries.len() ==> (#[trigger] entries[i]).port != port,
    decreases entries.len() - from,
{
    if from < entries.len() {
        lemma_no_targets(entries, port, from + 1);
        if entries[from].port != port && kill::targets(entries, port, from + 1).len() == 0 {
            assert forall|i: int| from <= i < entries.len() implies (#[trigger] entries[i]).port
                != port by {}
        }
    }
}

/// Whether every visit that is over left its process dealt with.
spec fn covers(st: KillState) -> bool {
    forall|k: int|
        0 <= k < st.at && (#[trigger] st.visits[k]) is Target ==> dealt_with(
            st,
            st.entries[st.visits[k]->index as int],
        )
}

/// Whether a listener is a container's, or one of an unknown process, or its
/// process has been dealt with.
pub open spec fn dealt_with(st: KillState, e: EntryView) -> bool {
    e.docker is Some || e.pid is None || st.handled.contains(e.pid.unwrap())
}

proof fn lemma_covers_grow(a: KillState, b: KillState)
    requires
        covers(a),
        same_request(a, b),
        a.at <= b.at,
        a.handled.is_prefix_of(b.handled),
        forall|k: int|
            a.at <= k < b.at && (#[trigger] b.visits[k]) is Target ==> dealt_with(
                b,
                b.entries[b.visits[k]->index as int],
            ),
    ensures
        covers(b),
{
    assert forall|k: int| 0 <= k < b.at && (#[trigger] b.visits[k]) is Target implies dealt_with(
        b,
        b.entries[b.visits[k]->index as int],
    ) by {
        if k < a.at {
            let e = a.entries[a.visits[k]->index as int];
            if !(e.docker is Some || e.pid is None) {
                let m = choose|m: int|
                    0 <= m < a.handled.len() && a.handled[m] == e.pid.unwrap();
                lemma_prefix_trans(a.handled, a.handled, b.handled);
                assert(b.handled[m] == e.pid.unwrap());
            }
        }
    }
}

proof fn lemma_self_prefix<A>(s: Seq<A>, x: A)
    ensures
        s.is_prefix_of(s),
        s.is_prefix_of(s.push(x)),
{
    assert(s =~= s.subrange(0, s.len() as int));
    assert(s =~= s.push(x).subrange(0, s.len() as int));
}

/// What going on adds to those dealt with: at most one process, the one it
/// stops at, unless nobody can be asked.
proof fn lemma_proceed_covers(st: KillState)
    requires
        inv(st),
        st.phase == Phase::Ready,
        covers(st),
    ensures
        covers(st.proceed().state),
        st.yes || st.tty ==> st.proceed().state.handled == st.handled || (active(
            st.proceed().state,
        ) && st.proceed().state.handled == st.handled.push(st.proceed().state.pid())),
        active(st.proceed().state) ==> if st.yes {
            st.proceed().action == (ActionView::Send {
                pid: st.proceed().state.pid(),
                signal: st.signal(),
            })
        } else {
            st.proceed().state.phase == Phase::Confirming
        },
    decreases st.visits.len() - st.at,
{
    if st.at >= st.visits.len() {
        lemma_self_prefix(st.handled, 0u32);
        lemma_covers_grow(st, st.proceed().state);
    } else {
        let at = st.at as int;
        match st.visits[at] {
            Visit::NoListener { port } => {
                lemma_step_covers(st, st, Outcome::NoListener);
            },
            Visit::Target { port, index } => {
                let e = st.entries[index as int];
                match (e.docker, e.pid) {
                    (Some(d), _) => {
                        lemma_step_covers(st, st, Outcome::Docker);
                    },
                    (None, None) => {
                        lemma_step_covers(st, st, Outcome::PidUnknown);
                    },
                    (None, Some(pid)) => {
                        let h = st.handling(pid);
                        lemma_self_prefix(st.handled, pid);
                        if st.handled.contains(pid) {
                            lemma_step_covers(st, st, Outcome::AlreadyHandled);
                        } else if !st.yes && !st.tty {
                            assert(h.handled.no_duplicates());
                            assert(h.handled[st.handled.len() as int] == pid);
                            lemma_step_covers(st, h, Outcome::Refused);
                        } else {
                            lemma_covers_grow(st, st.proceed().state);
                        }
                    },
                }
            },
        }
    }
}

proof fn lemma_step_covers(st: KillState, h: KillState, o: Outcome)
    requires
        inv(h),
        h.phase == Phase::Ready,
        h.at < h.visits.len(),
        covers(st),
        same_request(st, h),
        st.at == h.at,
        st.handled.is_prefix_of(h.handled) || st.handled == h.handled,
        h.visits[h.at as int] is Target ==> dealt_with(
            h,
            h.entries[h.visits[h.at as int]->index as int],
        ),
        o != Outcome::Killed,
    ensures
        covers(h.closing(o).proceed().state),
        h.yes || h.tty ==> h.closing(o).proceed().state.handled == h.handled || (active(
            h.closing(o).proceed().state,
        ) && h.closing(o).proceed().state.handled == h.handled.push(
            h.closing(o).proceed().state.pid(),
        )),
        active(h.closing(o).proceed().state) ==> if h.yes {
            h.closing(o).proceed().action == (ActionView::Send {
                pid: h.closing(o).proceed().state.pid(),
                signal: h.signal(),
            })
        } else {
            h.closing(o).proceed().state.phase == Phase::Confirming
        },
    decreases h.visits.len() - h.at, 0int,
{
    let t = h.closing(o);
    lemma_self_prefix(st.handled, 0u32);
    lemma_covers_grow(st, t);
    lemma_closing_keeps_freed(h, o);
    lemma_proceed_covers(t);
}

/// What a visit to a process that has ended adds to those dealt with.
spec fn moved_on(st: KillState, r: Step) -> bool {
    &&& covers(r.state)
    &&& st.yes || st.tty ==> r.state.handled == st.handled || (active(r.state) && r.state.handled
        == st.handled.push(r.state.pid()))
    &&& active(r.state) && r.state.at > st.at ==> if st.yes {
        r.action == (ActionView::Send { pid: r.state.pid(), signal: st.signal() })
    } else {
        r.state.phase == Phase::Confirming
    }
}

proof fn lemma_close_covers(st: KillState, t: KillState)
    requires
        inv(st),
        active(st),
        covers(st),
        inv(t),
        t.phase == Phase::Ready,
        same_request(st, t),
        t.at == st.at + 1,
        t.handled == st.handled,
    ensures
        moved_on(st, t.proceed()),
{
    lemma_self_prefix(st.handled, 0u32);
    assert(st.handled[st.handled.len() - 1] == st.pid());
    lemma_covers_grow(st, t);
    lemma_proceed_covers(t);
    lemma_proceed(t);
}

proof fn lemma_react_covers(st: KillState, event: EventView)
    requires
        inv(st),
        covers(st),
        st.expects(event),
    ensures
        moved_on(st, st.react(event)),
{
    let r = st.react(event);
    lemma_react(st, event);
    lemma_self_prefix(st.handled, 0u32);
    match event {
        EventView::Answer { yes } => {
            if yes {
                lemma_covers_grow(st, r.state);
            } else {
                let o = if st.phase == Phase::Confirming {
                    Outcome::Skipped
                } else {
                    Outcome::EscalationDeclined
                };
                lemma_closing_keeps_freed(st, o);
                lemma_close_covers(st, st.closing(o));
            }
        },
        EventView::Sent => {
            lemma_covers_grow(st, r.state);
        },
        EventView::Failed { code, stderr } => {
            lemma_closing_keeps_freed(st, Outcome::SignalFailed);
            lemma_close_covers(st, st.closing(Outcome::SignalFailed));
        },
        EventView::NotSpawned { message } => {
            lemma_closing_keeps_freed(st, Outcome::SignalFailed);
            lemma_close_covers(st, st.closing(Outcome::SignalFailed));
        },
        EventView::Waited { gone } => {
            if gone {
                lemma_freeing_fits(st);
                lemma_close_covers(st, st.freeing(st.port()).closing(Outcome::Killed));
            } else if st.signal() == Signal::Kill || st.phase == Phase::WaitingEscalated || st.yes
                || !st.tty {
                lemma_closing_keeps_freed(st, Outcome::Survived);
                lemma_close_covers(st, st.closing(Outcome::Survived));
            } else {
                lemma_covers_grow(st, r.state);
            }
        },
    }
}

/// Whether the run asked about `pid`, or sent it its first signal unasked,
/// at step `j`.
pub open spec fn approached(step: Step, pid: u32) -> bool {
    if step.state.yes {
        step.action == (ActionView::Send { pid, signal: step.state.signal() })
    } else {
        step.state.phase == Phase::Confirming && step.state.pid() == pid && step.action is Ask
    }
}

/// Whether a run approached `pid` at one of its steps.
pub open spec fn was_approached(start: KillState, events: Seq<EventView>, pid: u32) -> bool {
    exists|j: int| 0 <= j <= events.len() && #[trigger] approached(after(start, events, j), pid)
}

proof fn lemma_run_covers(start: KillState, events: Seq<EventView>)
    requires
        inv(start),
        start.phase == Phase::Ready,
        start.at == 0,
        legal(start, events),
    ensures
        covers(run(start, events).state),
    decreases events.len(),
{
    reveal(run);
    if events.len() == 0 {
        lemma_proceed_covers(start);
    } else {
        let early = events.drop_last();
        lemma_run_covers(start, early);
        lemma_run(start, early);
        lemma_react_covers(run(start, early).state, events.last());
    }
}

/// The one step from `early` to `events`: whoever is new among those dealt
/// with is approached by it.
proof fn lemma_step_approaches(start: KillState, events: Seq<EventView>, m: int)
    requires
        inv(start),
        start.phase == Phase::Ready,
        start.at == 0,
        start.yes || start.tty,
        legal(start, events),
        events.len() > 0,
        0 <= m < run(start, events).state.handled.len(),
    ensures
        ({
            let a = run(start, events.drop_last()).state;
            let r = run(start, events);
            &&& m < a.handled.len() ==> r.state.handled[m] == a.handled[m]
            &&& m >= a.handled.len() ==> approached(r, r.state.handled[m])
        }),
{
    let early = events.drop_last();
    lemma_run(start, early);
    lemma_run_covers(start, early);
    lemma_run(start, events);
    let a = run(start, early).state;
    let r = a.react(events.last());
    assert(run(start, events) == r) by {
        reveal(run);
    }
    lemma_react(a, events.last());
    lemma_react_covers(a, events.last());
    if m >= a.handled.len() {
        assert(r.state.at > a.at);
        lemma_react_asks(a, events.last());
    }
}

proof fn lemma_run_approaches(start: KillState, events: Seq<EventView>, m: int)
    requires
        inv(start),
        start.phase == Phase::Ready,
        start.at == 0,
        start.handled.len() == 0,
        start.yes || start.tty,
        legal(start, events),
        0 <= m < run(start, events).state.handled.len(),
    ensures
        was_approached(start, events, run(start, events).state.handled[m]),
    decreases events.len(),
{
    let r = run(start, events);
    let n = events.len() as int;
    assert(events.take(n) =~= events);
    if events.len() == 0 {
        assert(r == start.proceed()) by {
            reveal(run);
        }
        lemma_proceed(start);
        lemma_proceed_covers(start);
        lemma_asks(start);
        assert(approached(after(start, events, n), r.state.handled[m]));
    } else {
        let early = events.drop_last();
        lemma_step_approaches(start, events, m);
        let a = run(start, early).state;
        if m < a.handled.len() {
            lemma_run_approaches(start, early, m);
            let j = choose|j: int|
                0 <= j <= early.len() && #[trigger] approached(
                    after(start, early, j),
                    a.handled[m],
                );
            assert(events.take(j) =~= early.take(j));
            assert(approached(after(start, events, j), r.state.handled[m]));
        } else {
            assert(approached(after(start, events, n), r.state.handled[m]));
        }
    }
}

/// A run that stops to confirm asks.
proof fn lemma_asks(st: KillState)
    requires
        inv(st),
        st.phase == Phase::Ready,
    ensures
        st.proceed().state.phase == Phase::Confirming ==> st.proceed().action is Ask,
    decreases st.visits.len() - st.at,
{
    if st.at < st.visits.len() {
        match st.visits[st.at as int] {
            Visit::NoListener { port } => {
                lemma_closing_keeps_freed(st, Outcome::NoListener);
                lemma_asks(st.closing(Outcome::NoListener));
            },
            Visit::Target { port, index } => {
                let e = st.entries[index as int];
                match (e.docker, e.pid) {
                    (Some(d), _) => {
                        lemma_closing_keeps_freed(st, Outcome::Docker);
                        lemma_asks(st.closing(Outcome::Docker));
                    },
                    (None, None) => {
                        lemma_closing_keeps_freed(st, Outcome::PidUnknown);
                        lemma_asks(st.closing(Outcome::PidUnknown));
                    },
                    (None, Some(pid)) => {
                        let h = st.handling(pid);
                        if st.handled.contains(pid) {
                            lemma_closing_keeps_freed(st, Outcome::AlreadyHandled);
                            lemma_asks(st.closing(Outcome::AlreadyHandled));
                        } else if !st.yes && !st.tty {
                            assert(h.handled.no_duplicates());
                            lemma_closing_keeps_freed(h, Outcome::Refused);
                            lemma_asks(h.closing(Outcome::Refused));
                        }
                    },
                }
            },
        }
    }
}

proof fn lemma_react_asks(st: KillState, event: EventView)
    requires
        inv(st),
        st.expects(event),
        st.react(event).state.at > st.at,
    ensures
        st.react(event).state.phase == Phase::Confirming ==> st.react(event).action is Ask,
{
    match event {
        EventView::Answer { yes } => {
            let o = if st.phase == Phase::Confirming {
                Outcome::Skipped
            } else {
                Outcome::EscalationDeclined
            };
            lemma_closing_keeps_freed(st, o);
            lemma_asks(st.closing(o));
        },
        EventView::Sent => {},
        EventView::Failed { code, stderr } => {
            lemma_closing_keeps_freed(st, Outcome::SignalFailed);
            lemma_asks(st.closing(Outcome::SignalFailed));
        },
        EventView::NotSpawned { message } => {
            lemma_closing_keeps_freed(st, Outcome::SignalFailed);
            lemma_asks(st.closing(Outcome::SignalFailed));
        },
        EventView::Waited { gone } => {
            if gone {
                lemma_freeing_fits(st);
                lemma_asks(st.freeing(st.port()).closing(Outcome::Killed));
            } else {
                lemma_closing_keeps_freed(st, Outcome::Survived);
                lemma_asks(st.closing(Outcome::Survived));
            }
        },
    }
}

/// Nobody is left out: when a run is over, every local process that listens
/// on a requested port and whose number is known has been dealt with, and
/// each of them was asked about, or was sent the signal where the user said
/// yes to all.
pub proof fn law_every_process_is_approached(
    start: KillState,
    entries: Seq<EntryView>,
    ports: Seq<u32>,
    events: Seq<EventView>,
    i: int,
)
    requires
        fresh(start, entries, ports),
        legal(start, events),
        run(start, events).action is Finish,
        0 <= i < entries.len(),
        ports.contains(entries[i].port),
        entries[i].docker is None,
        entries[i].pid is Some,
    ensures
        run(start, events).state.handled.contains(entries[i].pid.unwrap()),
        start.yes || start.tty ==> was_approached(start, events, entries[i].pid.unwrap()),
{
    lemma_fresh(start, entries, ports);
    lemma_run(start, events);
    lemma_run_covers(start, events);
    let st = run(start, events).state;
    let p = choose|p: int| 0 <= p < ports.len() && ports[p] == entries[i].port;
    law_every_listener_is_visited(entries, ports, p, i);
    let v = Visit::Target { port: ports[p], index: i as usize };
    let k = choose|k: int| 0 <= k < start.visits.len() && start.visits[k] == v;
    assert(st.visits[k] is Target);
    assert(dealt_with(st, entries[i]));
    let m = choose|m: int|
        0 <= m < st.handled.len() && st.handled[m] == entries[i].pid.unwrap();
    if start.yes || start.tty {
        lemma_run_approaches(start, events, m);
    }
}

/// What follows each event: a yes is followed by the signal, a signal that
/// was sent by the wait for the process, and a wait that the process outlived
/// by the question whether to send SIGKILL, where there is somebody to ask
/// and it was not SIGKILL already.
pub proof fn law_signal_follows_yes_and_wait_follows_signal(st: KillState)
    requires
        st.wf(),
    ensures
        st.phase == Phase::Confirming ==> st.react(EventView::Answer { yes: true }).action == (
        ActionView::Send {
            pid: st.target().pid.unwrap(),
            signal: if st.force {
                Signal::Kill
            } else {
                Signal::Term
            },
        }),
        st.phase == Phase::AskingEscalation ==> st.react(EventView::Answer { yes: true }).action
            == (ActionView::Send { pid: st.target().pid.unwrap(), signal: Signal::Kill }),
        st.phase == Phase::Signaling ==> st.react(EventView::Sent).action == (ActionView::Wait {
            pid: st.target().pid.unwrap(),
            timeout_ms: 3000,
        }),
        st.phase == Phase::Escalating ==> st.react(EventView::Sent).action == (ActionView::Wait {
            pid: st.target().pid.unwrap(),
            timeout_ms: 2000,
        }),
        st.phase == Phase::Waiting && !st.force && !st.yes && st.tty ==> st.react(
            EventView::Waited { gone: false },
        ).state.phase == Phase::AskingEscalation && st.react(
            EventView::Waited { gone: false },
        ).action is Ask,
{
}

/// How each end of a visit is recorded, whatever comes after it.
#[verifier::rlimit(50)]
pub proof fn law_outcomes_are_recorded(
    start: KillState,
    entries: Seq<EntryView>,
    ports: Seq<u32>,
    events: Seq<EventView>,
    event: EventView,
)
    requires
        fresh(start, entries, ports),
        legal(start, events),
        run(start, events).state.expects(event),
        run(start, events.push(event)).state.at > run(start, events).state.at,
    ensures
        ({
            let a = run(start, events).state;
            let b = run(start, events.push(event)).state;
            let o = b.outcomes[a.at as int];
            &&& b.outcomes.len() > a.at
            &&& o == Outcome::Killed <==> seen_gone(event)
            &&& o == Outcome::Skipped <==> a.phase == Phase::Confirming && event is Answer
                && !event->yes
            &&& o == Outcome::EscalationDeclined <==> a.phase == Phase::AskingEscalation
                && event is Answer && !event->yes
            &&& o == Outcome::SignalFailed <==> event is Failed || event is NotSpawned
            &&& o == Outcome::Survived <==> event is Waited && !event->gone
            &&& forall|i: int| 0 <= i < a.at ==> b.outcomes[i] == #[trigger] a.outcomes[i]
        }),
{
    reveal(run);
    lemma_fresh(start, entries, ports);
    lemma_run(start, events);
    let a = run(start, events).state;
    assert(events.push(event).drop_last() =~= events);
    let b = run(start, events.push(event)).state;
    assert(b == a.react(event).state);
    lemma_react(a, event);
    lemma_prefix_trans(a.outcomes, a.outcomes, b.outcomes);
    match event {
        EventView::Answer { yes } => {
            if a.phase == Phase::Confirming {
                lemma_close(a, Outcome::Skipped);
            } else {
                lemma_close(a, Outcome::EscalationDeclined);
            }
        },
        EventView::Sent => {},
        EventView::Failed { code, stderr } => {
            lemma_close(a, Outcome::SignalFailed);
        },
        EventView::NotSpawned { message } => {
            lemma_close(a, Outcome::SignalFailed);
        },
        EventView::Waited { gone } => {
            if !gone {
                lemma_close(a, Outcome::Survived);
            }
        },
    }
}

// ---------------------------------------------------------------------------
// Nothing is passed over in silence
// ---------------------------------------------------------------------------

/// How a visit that needs nobody's help ends: a free port, a container and an
/// unknown process each have their own outcome, and no other visit has it.
pub open spec fn fits_visit(entries: Seq<EntryView>, v: Visit, o: Outcome) -> bool {
    match v {
        Visit::NoListener { .. } => o == Outcome::NoListener,
        Visit::Target { index, .. } => {
            let e = entries[index as int];
            if e.docker is Some {
                o == Outcome::Docker
            } else if e.pid is None {
                o == Outcome::PidUnknown
            } else {
                o != Outcome::NoListener && o != Outcome::Docker && o != Outcome::PidUnknown
            }
        },
    }
}

/// Whether every visit that is over has an outcome that fits it, and whoever
/// was dealt with in a run that can ask nobody was refused.
spec fn sound(st: KillState) -> bool {
    &&& st.outcomes.len() == st.at <= st.visits.len()
    &&& forall|k: int|
        0 <= k < st.at ==> fits_visit(st.entries, st.visits[k], #[trigger] st.outcomes[k])
    &&& !st.yes && !st.tty && st.handled.len() > 0 ==> any_refused(st)
}

spec fn any_refused(st: KillState) -> bool {
    exists|k: int| 0 <= k < st.outcomes.len() && (#[trigger] st.outcomes[k]) == Outcome::Refused
}

proof fn lemma_closing_sound(st: KillState, h: KillState, o: Outcome)
    requires
        sound(st),
        st.at < st.visits.len(),
        h.entries == st.entries,
        h.visits == st.visits,
        h.at == st.at,
        h.outcomes == st.outcomes,
        h.yes == st.yes,
        h.tty == st.tty,
        h.handled == st.handled || o == Outcome::Refused || h.yes || h.tty,
        fits_visit(st.entries, st.visits[st.at as int], o),
    ensures
        sound(h.closing(o)),
{
    let t = h.closing(o);
    assert forall|k: int| 0 <= k < t.at implies fits_visit(
        t.entries,
        t.visits[k],
        #[trigger] t.outcomes[k],
    ) by {
        if k < st.at {
            assert(t.outcomes[k] == st.outcomes[k]);
        }
    }
    if !t.yes && !t.tty && t.handled.len() > 0 {
        if o == Outcome::Refused {
            assert(t.outcomes[st.at as int] == Outcome::Refused);
        } else {
            let k = choose|k: int|
                0 <= k < st.outcomes.len() && (#[trigger] st.outcomes[k]) == Outcome::Refused;
            assert(t.outcomes[k] == Outcome::Refused);
        }
    }
}

proof fn lemma_proceed_sound(st: KillState)
    requires
        sound(st),
    ensures
        sound(st.proceed().state),
    decreases st.visits.len() - st.at,
{
    if st.at < st.visits.len() {
        match st.visits[st.at as int] {
            Visit::NoListener { port } => {
                lemma_closing_sound(st, st, Outcome::NoListener);
                lemma_proceed_sound(st.closing(Outcome::NoListener));
            },
            Visit::Target { port, index } => {
                let e = st.entries[index as int];
                match (e.docker, e.pid) {
                    (Some(d), _) => {
                        lemma_closing_sound(st, st, Outcome::Docker);
                        lemma_proceed_sound(st.closing(Outcome::Docker));
                    },
                    (None, None) => {
                        lemma_closing_sound(st, st, Outcome::PidUnknown);
                        lemma_proceed_sound(st.closing(Outcome::PidUnknown));
                    },
                    (None, Some(pid)) => {
                        let h = st.handling(pid);
                        if st.handled.contains(pid) {
                            lemma_closing_sound(st, st, Outcome::AlreadyHandled);
                            lemma_proceed_sound(st.closing(Outcome::AlreadyHandled));
                        } else if !st.yes && !st.tty {
                            lemma_closing_sound(st, h, Outcome::Refused);
                            lemma_proceed_sound(h.closing(Outcome::Refused));
                        }
                    },
                }
            },
        }
    }
}

proof fn lemma_react_sound(st: KillState, event: EventView)
    requires
        sound(st),
        inv(st),
        st.expects(event),
    ensures
        sound(st.react(event).state),
{
    match event {
        EventView::Answer { yes } => {
            if !yes {
                let o = if st.phase == Phase::Confirming {
                    Outcome::Skipped
                } else {
                    Outcome::EscalationDeclined
                };
                lemma_closing_sound(st, st, o);
                lemma_proceed_sound(st.closing(o));
            }
        },
        EventView::Sent => {},
        EventView::Failed { code, stderr } => {
            lemma_closing_sound(st, st, Outcome::SignalFailed);
            lemma_proceed_sound(st.closing(Outcome::SignalFailed));
        },
        EventView::NotSpawned { message } => {
            lemma_closing_sound(st, st, Outcome::SignalFailed);
            lemma_proceed_sound(st.closing(Outcome::SignalFailed));
        },
        EventView::Waited { gone } => {
            if gone {
                let h = st.freeing(st.port());
                lemma_closing_sound(st, h, Outcome::Killed);
                lemma_proceed_sound(h.closing(Outcome::Killed));
            } else {
                lemma_closing_sound(st, st, Outcome::Survived);
                lemma_proceed_sound(st.closing(Outcome::Survived));
            }
        },
    }
}

proof fn lemma_run_sound(start: KillState, events: Seq<EventView>)
    requires
        inv(start),
        start.phase == Phase::Ready,
        sound(start),
        legal(start, events),
    ensures
        sound(run(start, events).state),
    decreases events.len(),
{
    reveal(run);
    if events.len() == 0 {
        lemma_proceed_sound(start);
    } else {
        lemma_run_sound(start, events.drop_last());
        lemma_run(start, events.drop_last());
        lemma_react_sound(run(start, events.drop_last()).state, events.last());
    }
}

/// A run fails that could not free a port because nothing listens on it, a
/// container owns it, its process is unknown, or nobody could be asked.
pub proof fn law_unfreed_ports_fail_the_run(
    start: KillState,
    entries: Seq<EntryView>,
    ports: Seq<u32>,
    events: Seq<EventView>,
    port: u32,
    i: int,
)
    requires
        fresh(start, entries, ports),
        legal(start, events),
        run(start, events).action is Finish,
        ports.contains(port),
    ensures
        (forall|k: int| 0 <= k < entries.len() ==> (#[trigger] entries[k]).port != port) ==> run(
            start,
            events,
        ).action->code == 1,
        0 <= i < entries.len() && entries[i].port == port && (entries[i].docker is Some
            || entries[i].pid is None) ==> run(start, events).action->code == 1,
        0 <= i < entries.len() && entries[i].port == port && !start.yes && !start.tty ==> run(
            start,
            events,
        ).action->code == 1,
{
    lemma_fresh(start, entries, ports);
    lemma_run_sound(start, events);
    lemma_run(start, events);
    law_exit_code(start, entries, ports, events);
    let st = run(start, events).state;
    let all = kill::all_visits(entries, ports);
    assert(st.visits == all && st.entries == entries);
    if forall|k: int| 0 <= k < entries.len() ==> (#[trigger] entries[k]).port != port {
        law_free_ports_are_reported(entries, ports, port);
        let v = Visit::NoListener { port };
        let k = choose|k: int| 0 <= k < all.len() && all[k] == v;
        assert(fits_visit(entries, st.visits[k], st.outcomes[k]));
    }
    if 0 <= i < entries.len() && entries[i].port == port {
        let p = choose|p: int| 0 <= p < ports.len() && ports[p] == port;
        law_every_listener_is_visited(entries, ports, p, i);
        let v = Visit::Target { port, index: i as usize };
        let k = choose|k: int| 0 <= k < all.len() && all[k] == v;
        assert(fits_visit(entries, st.visits[k], st.outcomes[k]));
        if !start.yes && !start.tty && entries[i].docker is None && entries[i].pid is Some {
            law_every_process_is_approached(start, entries, ports, events, i);
            assert(st.handled.len() > 0);
            let m = choose|m: int|
                0 <= m < st.outcomes.len() && (#[trigger] st.outcomes[m]) == Outcome::Refused;
            assert(st.outcomes[m] == Outcome::Refused);
        }
    }
}

/// What happens on arriving at a visit: a port that cannot be freed is
/// reported on the error stream, a process dealt with before on the other,
/// and any other process is signalled or asked about, or refused where nobody
/// can be asked.
pub proof fn law_arrivals(st: KillState, e: EntryView, port: u32, index: usize, pid: u32)
    requires
        st.wf(),
        st.phase == Phase::Ready,
        st.at < st.visits.len(),
    ensures
        ({
            let r = st.proceed();
            let v = st.visits[st.at as int];
            let here = v == (Visit::Target { port, index }) && st.entries[index as int] == e;
            let signal = if st.force {
                Signal::Kill
            } else {
                Signal::Term
            };
            let known = here && e.docker is None && e.pid == Some(pid);
            let new = known && !st.handled.contains(pid);
            &&& v == (Visit::NoListener { port }) ==> r.lines.len() > 0 && r.lines[0] == (LineView {
                err: true,
                text: messages::no_listener_text(port),
            })
            &&& here && e.docker is Some ==> r.lines.len() > 0 && r.lines[0] == (LineView {
                err: true,
                text: messages::docker_text(e.proto, port, e.docker.unwrap().name),
            })
            &&& here && e.docker is None && e.pid is None ==> r.lines.len() > 0 && r.lines[0] == (
            LineView { err: true, text: messages::pid_unknown_text(e.proto, port) })
            &&& known && st.handled.contains(pid) ==> r.lines.len() > 0 && r.lines[0] == (LineView {
                err: false,
                text: messages::already_handled_text(e.proto, port, pid),
            })
            &&& new && st.yes ==> r.action == (ActionView::Send { pid, signal }) && r.state.at
                == st.at
            &&& new && !st.yes && st.tty ==> r.action == (ActionView::Ask {
                prompt: messages::confirm_text(e.proto, port, pid, e.process, e.cwd, signal),
            }) && r.state.at == st.at
            &&& new && !st.yes && !st.tty ==> r.lines.len() > 0 && r.lines[0] == (LineView {
                err: true,
                text: messages::refused_text(e.proto, port, pid, e.process),
            })
        }),
{
}

/// What is said at the end of a visit: that the process is gone and by which
/// signal, that it outlived it and for how long, that the user turned it
/// down, or what came of `kill`.
pub proof fn law_ends_are_reported(st: KillState, event: EventView)
    requires
        st.wf(),
        st.expects(event),
    ensures
        ({
            let r = st.react(event);
            let e = st.target();
            let pid = e.pid.unwrap();
            let port = visit_port(st.visits[st.at as int]);
            let escalated = st.phase == Phase::Escalating || st.phase == Phase::WaitingEscalated;
            let signal = if st.force || escalated {
                Signal::Kill
            } else {
                Signal::Term
            };
            &&& event == (EventView::Waited { gone: true }) ==> r.lines.len() > 0 && r.lines[0] == (
            LineView {
                err: false,
                text: messages::killed_text(e.proto, port, pid, e.process, signal),
            })
            &&& event == (EventView::Waited { gone: false }) && signal == Signal::Kill
                ==> r.lines.len() > 0 && r.lines[0] == (LineView {
                err: true,
                text: messages::survived_kill_text(
                    e.proto,
                    port,
                    pid,
                    e.process,
                    if escalated {
                        2
                    } else {
                        3
                    },
                ),
            })
            &&& event == (EventView::Waited { gone: false }) && signal == Signal::Term
                ==> r.lines.len() > 0 && r.lines[0] == (LineView {
                err: true,
                text: messages::survived_term_text(e.proto, port, pid, e.process, 3),
            })
            &&& event == (EventView::Waited { gone: false }) && signal == Signal::Term && (st.yes
                || !st.tty) ==> r.lines.len() > 1 && r.lines[1] == (LineView {
                err: true,
                text: messages::retry_hint_text(port),
            })
            &&& event == (EventView::Answer { yes: false }) ==> r.lines.len() > 0 && r.lines[0] == (
            LineView {
                err: false,
                text: if st.phase == Phase::Confirming {
                    messages::skipped_text(pid, e.process)
                } else {
                    messages::declined_text(pid, e.process)
                },
            })
            &&& event is NotSpawned ==> r.lines.len() > 0 && r.lines[0] == (LineView {
                err: true,
                text: messages::not_spawned_text(e.proto, port, event->message),
            })
            &&& event is Failed ==> messages::kill_failure(
                e.proto,
                port,
                pid,
                signal,
                event->code,
                event->stderr,
            ).is_prefix_of(r.lines)
        }),
{
    if event is Failed {
        let e = st.target();
        let escalated = st.phase == Phase::Escalating;
        let signal = if st.force || escalated {
            Signal::Kill
        } else {
            Signal::Term
        };
        let lines = messages::kill_failure(
            e.proto,
            st.port(),
            st.pid(),
            signal,
            event->code,
            event->stderr,
        );
        let r = st.react(event);
        assert(r.lines.subrange(0, lines.len() as int) =~= lines);
    }
}

} // verus!
