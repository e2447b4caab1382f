//! The data the tool works on: listeners, the containers behind them and
//! their usage figures, each with its view as plain mathematical values.

use vstd::prelude::*;

verus! {

/// A transport protocol.
#[derive(Clone, Copy, Debug, PartialEq, Eq, Structural)]
pub enum Proto {
    Tcp,
    Udp,
}

impl Proto {
    /// The name of the protocol in every message and table.
    pub open spec fn label(self) -> Seq<char> {
        match self {
            Proto::Tcp => "tcp"@,
            Proto::Udp => "udp"@,
        }
    }

    /// The place of the protocol in the order of rows.
    pub open spec fn rank(self) -> nat {
        match self {
            Proto::Tcp => 0,
            Proto::Udp => 1,
        }
    }

    /// The name of the protocol.
    pub fn name(self) -> (r: &'static str)
        ensures
            r@ == self.label(),
    {
        match self {
            Proto::Tcp => "tcp",
            Proto::Udp => "udp",
        }
    }
}

/// The contents of an optional string.
pub open spec fn opt_view(o: Option<String>) -> Option<Seq<char>> {
    match o {
        Some(s) => Some(s@),
        None => None,
    }
}

/// A copy of an optional string.
pub fn copy_opt(o: &Option<String>) -> (r: Option<String>)
    ensures
        opt_view(r) == opt_view(*o),
{
    match o {
        Some(s) => Some(s.clone()),
        None => None,
    }
}

/// Usage figures of a process or a container, ready for display.
#[derive(Debug, PartialEq, Eq)]
pub struct Stats {
    pub cpu: String,
    pub mem: String,
    pub uptime: String,
    pub threads: Option<u32>,
    pub user: Option<String>,
}

/// The view of `Stats`.
#[verifier::ext_equal]
pub struct StatsView {
    pub cpu: Seq<char>,
    pub mem: Seq<char>,
    pub uptime: Seq<char>,
    pub threads: Option<u32>,
    pub user: Option<Seq<char>>,
}

impl View for Stats {
    type V = StatsView;

    open spec fn view(&self) -> StatsView {
        StatsView {
            cpu: self.cpu@,
            mem: self.mem@,
            uptime: self.uptime@,
            threads: self.threads,
            user: opt_view(self.user),
        }
    }
}

/// Figures of which nothing is known yet.
pub open spec fn no_stats() -> StatsView {
    StatsView {
        cpu: Seq::empty(),
        mem: Seq::empty(),
        uptime: Seq::empty(),
        threads: None,
        user: None,
    }
}

impl Default for Stats {
    fn default() -> (r: Self)
        ensures
            r@ == no_stats(),
    {
        Stats {
            cpu: String::new(),
            mem: String::new(),
            uptime: String::new(),
            threads: None,
            user: None,
        }
    }
}

impl Clone for Stats {
    fn clone(&self) -> (r: Self)
        ensures
            r@ == self@,
    {
        Stats {
            cpu: self.cpu.clone(),
            mem: self.mem.clone(),
            uptime: self.uptime.clone(),
            threads: self.threads,
            user: copy_opt(&self.user),
        }
    }
}

/// The container that a port is published for.
#[derive(Debug, PartialEq, Eq)]
pub struct DockerInfo {
    pub name: String,
    pub image: String,
    pub running_for: String,
    pub work_dir: Option<String>,
    pub container_port: u32,
    /// The `com.docker.compose.project` label, which groups the containers
    /// of one compose project into one block.
    pub compose_project: Option<String>,
}

/// The view of `DockerInfo`.
#[verifier::ext_equal]
pub struct DockerView {
    pub name: Seq<char>,
    pub image: Seq<char>,
    pub running_for: Seq<char>,
    pub work_dir: Option<Seq<char>>,
    pub container_port: u32,
    pub compose_project: Option<Seq<char>>,
}

impl View for DockerInfo {
    type V = DockerView;

    open spec fn view(&self) -> DockerView {
        DockerView {
            name: self.name@,
            image: self.image@,
            running_for: self.running_for@,
            work_dir: opt_view(self.work_dir),
            container_port: self.container_port,
            compose_project: opt_view(self.compose_project),
        }
    }
}

impl Clone for DockerInfo {
    fn clone(&self) -> (r: Self)
        ensures
            r@ == self@,
    {
        DockerInfo {
            name: self.name.clone(),
            image: self.image.clone(),
            running_for: self.running_for.clone(),
            work_dir: copy_opt(&self.work_dir),
            container_port: self.container_port,
            compose_project: copy_opt(&self.compose_project),
        }
    }
}

/// The view of an optional container.
pub open spec fn opt_docker(o: Option<DockerInfo>) -> Option<DockerView> {
    match o {
        Some(d) => Some(d@),
        None => None,
    }
}

/// A copy of an optional container.
pub fn copy_docker(o: &Option<DockerInfo>) -> (r: Option<DockerInfo>)
    ensures
        opt_docker(r) == opt_docker(*o),
{
    match o {
        Some(d) => Some(d.clone()),
        None => None,
    }
}

/// One listener: a process, or a container, on a port.
#[derive(Debug, PartialEq, Eq)]
pub struct Entry {
    pub proto: Proto,
    /// The address that is listened on, without zone and brackets.
    pub addr: String,
    pub port: u32,
    pub pid: Option<u32>,
    pub process: String,
    pub cwd: String,
    pub cmdline: String,
    pub docker: Option<DockerInfo>,
    pub stats: Stats,
    pub user_launched: bool,
}

/// The view of `Entry`.
#[verifier::ext_equal]
pub struct EntryView {
    pub proto: Proto,
    pub addr: Seq<char>,
    pub port: u32,
    pub pid: Option<u32>,
    pub process: Seq<char>,
    pub cwd: Seq<char>,
    pub cmdline: Seq<char>,
    pub docker: Option<DockerView>,
    pub stats: StatsView,
    pub user_launched: bool,
}

impl View for Entry {
    type V = EntryView;

    open spec fn view(&self) -> EntryView {
        EntryView {
            proto: self.proto,
            addr: self.addr@,
            port: self.port,
            pid: self.pid,
            process: self.process@,
            cwd: self.cwd@,
            cmdline: self.cmdline@,
            docker: opt_docker(self.docker),
            stats: self.stats@,
            user_launched: self.user_launched,
        }
    }
}

/// The views of a list of listeners.
pub open spec fn views(v: Seq<Entry>) -> Seq<EntryView> {
    v.map_values(|e: Entry| e@)
}

/// The contents of a list of strings.
pub open spec fn texts(v: Seq<String>) -> Seq<Seq<char>> {
    v.map_values(|s: String| s@)
}

/// A listener as it is found, before anything is known of its process.
pub open spec fn found(
    proto: Proto,
    addr: Seq<char>,
    port: u32,
    pid: Option<u32>,
    process: Seq<char>,
    docker: Option<DockerView>,
) -> EntryView {
    EntryView {
        proto,
        addr,
        port,
        pid,
        process,
        cwd: Seq::empty(),
        cmdline: Seq::empty(),
        docker,
        stats: no_stats(),
        user_launched: false,
    }
}

impl Entry {
    /// A listener as it is found, before anything is known of its process.
    pub fn new(
        proto: Proto,
        addr: String,
        port: u32,
        pid: Option<u32>,
        process: String,
        docker: Option<DockerInfo>,
    ) -> (r: Entry)
        ensures
            r@ == found(proto, addr@, port, pid, process@, opt_docker(docker)),
    {
        Entry {
            proto,
            addr,
            port,
            pid,
            process,
            cwd: String::new(),
            cmdline: String::new(),
            docker,
            stats: Stats::default(),
            user_launched: false,
        }
    }
}

impl Clone for Entry {
    fn clone(&self) -> (r: Self)
        ensures
            r@ == self@,
    {
        Entry {
            proto: self.proto,
            addr: self.addr.clone(),
            port: self.port,
            pid: self.pid,
            process: self.process.clone(),
            cwd: self.cwd.clone(),
            cmdline: self.cmdline.clone(),
            docker: copy_docker(&self.docker),
            stats: self.stats.clone(),
            user_launched: self.user_launched,
        }
    }
}

/// Appending a listener appends its view.
pub proof fn lemma_views_push(v: Seq<Entry>, e: Entry)
    ensures
        views(v.push(e)) == views(v).push(e@),
{
    assert(views(v.push(e)) =~= views(v).push(e@));
}

/// Appending a string appends its contents.
pub proof fn lemma_texts_push(v: Seq<String>, s: String)
    ensures
        texts(v.push(s)) == texts(v).push(s@),
{
    assert(texts(v.push(s)) =~= texts(v).push(s@));
}

} // verus!
