//! What the contracts see of a value is what it holds, field by field.

use vstd::prelude::*;
use crate::args;
use crate::args::{ArgError, ArgErrorView, Mode, ModeView};
use crate::command::{CommandResult, CommandView};
use crate::docker;
use crate::docker::{DockerMap, Published};
use crate::info;
use crate::kill::{ActionView, EventView, KillAction, KillEvent};
use crate::messages;
use crate::messages::{Line, Signal};
use crate::model;
use crate::model::{DockerInfo, Entry, Stats};
use crate::process;
use crate::process::ProcessInfo;
use crate::ss;
use crate::text;

verus! {

/// A listener, a container and its figures are seen as they are.
pub proof fn law_listeners_are_seen(e: Entry, d: DockerInfo, s: Stats, t: String)
    ensures
        e@.proto == e.proto && e@.addr == e.addr@ && e@.port == e.port && e@.pid == e.pid,
        e@.process == e.process@ && e@.cwd == e.cwd@ && e@.cmdline == e.cmdline@,
        e@.user_launched == e.user_launched && e@.stats == e.stats@,
        e.docker is None <==> e@.docker is None,
        e.docker == Some(d) ==> e@.docker == Some(d@),
        d@.name == d.name@ && d@.image == d.image@ && d@.running_for == d.running_for@,
        d@.container_port == d.container_port,
        d.work_dir is None <==> d@.work_dir is None,
        d.work_dir == Some(t) ==> d@.work_dir == Some(t@),
        d.compose_project is None <==> d@.compose_project is None,
        d.compose_project == Some(t) ==> d@.compose_project == Some(t@),
        s@.cpu == s.cpu@ && s@.mem == s.mem@ && s@.uptime == s.uptime@,
        s@.threads == s.threads,
        s.user is None <==> s@.user is None,
        s.user == Some(t) ==> s@.user == Some(t@),
{
}

/// A list is seen item by item.
pub proof fn law_lists_are_seen(
    es: Seq<Entry>,
    ts: Seq<String>,
    ls: Seq<Line>,
    ps: Seq<Published>,
    us: Seq<(String, u32)>,
    rs: Seq<(&'static str, String)>,
    cs: Seq<&[char]>,
    xs: Seq<ProcessInfo>,
    i: int,
)
    ensures
        model::views(es).len() == es.len(),
        0 <= i < es.len() ==> model::views(es)[i] == es[i]@,
        model::texts(ts).len() == ts.len(),
        0 <= i < ts.len() ==> model::texts(ts)[i] == ts[i]@,
        messages::line_views(ls).len() == ls.len(),
        0 <= i < ls.len() ==> messages::line_views(ls)[i].err == ls[i].err
            && messages::line_views(ls)[i].text == ls[i].text@,
        docker::published_views(ps).len() == ps.len(),
        0 <= i < ps.len() ==> docker::published_views(ps)[i] == ps[i]@,
        ss::user_views(us).len() == us.len(),
        0 <= i < us.len() ==> ss::user_views(us)[i] == (us[i].0@, us[i].1),
        info::row_views(rs).len() == rs.len(),
        0 <= i < rs.len() ==> info::row_views(rs)[i] == (rs[i].0@, rs[i].1@),
        text::pieces(cs).len() == cs.len(),
        0 <= i < cs.len() ==> text::pieces(cs)[i] == cs[i]@,
        process::process_views(xs).len() == xs.len(),
        0 <= i < xs.len() ==> process::process_views(xs)[i] == xs[i]@,
{
}

/// A published range and what was read of a process are seen as they are.
pub proof fn law_sources_are_seen(p: Published, m: DockerMap, x: ProcessInfo)
    ensures
        p@.proto == p.proto && p@.addr == p.addr@ && p@.first == p.first && p@.last == p.last,
        p@.info == p.info@,
        m@ == docker::published_views(m.published@),
        x@.pid == x.pid && x@.cwd == x.cwd@ && x@.cmdline == x.cmdline@,
        x@.user_launched == x.user_launched,
{
}

/// A request is seen as it is, and so is what is wrong with one.
pub proof fn law_requests_are_seen(
    dev: bool,
    ports: Vec<u32>,
    force: bool,
    yes: bool,
    arg: String,
)
    ensures
        (Mode::Dashboard { dev })@ == (ModeView::Dashboard { dev }),
        (Mode::Info { ports })@ == (ModeView::Info { ports: ports@ }),
        (Mode::Kill { ports, force, yes })@ == (ModeView::Kill { ports: ports@, force, yes }),
        (ArgError::UnknownArgument { arg })@ == (ArgErrorView::UnknownArgument { arg: arg@ }),
        (ArgError::InvalidPort { arg })@ == (ArgErrorView::InvalidPort { arg: arg@ }),
        ArgError::InfoWithoutPort@ == ArgErrorView::InfoWithoutPort,
        ArgError::KillWithoutPort@ == ArgErrorView::KillWithoutPort,
        args::result_view(Ok(Mode::Dashboard { dev })) == Ok::<ModeView, ArgErrorView>(
            (ModeView::Dashboard { dev }),
        ),
        args::result_view(Err(ArgError::KillWithoutPort)) == Err::<ModeView, ArgErrorView>(
            ArgErrorView::KillWithoutPort,
        ),
{
}

/// The steps of a run and what comes of them are seen as they are.
pub proof fn law_steps_are_seen(
    yes: bool,
    code: Option<i32>,
    exit: i32,
    t: String,
    pid: u32,
    signal: Signal,
    timeout_ms: u64,
)
    ensures
        (KillEvent::Answer { yes })@ == (EventView::Answer { yes }),
        KillEvent::Sent@ == EventView::Sent,
        (KillEvent::Failed { code, stderr: t })@ == (EventView::Failed { code, stderr: t@ }),
        (KillEvent::NotSpawned { message: t })@ == (EventView::NotSpawned { message: t@ }),
        (KillEvent::Waited { gone: yes })@ == (EventView::Waited { gone: yes }),
        (KillAction::Ask { prompt: t })@ == (ActionView::Ask { prompt: t@ }),
        (KillAction::Send { pid, signal })@ == (ActionView::Send { pid, signal }),
        (KillAction::Wait { pid, timeout_ms })@ == (ActionView::Wait { pid, timeout_ms }),
        (KillAction::Finish { code: exit })@ == (ActionView::Finish { code: exit }),
{
}

/// What came of a command is seen as it is.
pub proof fn law_commands_are_seen(
    success: bool,
    code: Option<i32>,
    stdout: Vec<u8>,
    stderr: Vec<u8>,
    message: String,
)
    ensures
        (CommandResult::Ran { success, code, stdout, stderr })@ == (CommandView::Ran {
            success,
            code,
            stdout: stdout@,
            stderr: stderr@,
        }),
        (CommandResult::NotSpawned { message })@ == (CommandView::NotSpawned { message: message@ }),
{
}

} // verus!
