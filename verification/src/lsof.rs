//! Listeners on macOS, from the field output of `lsof`.

use vstd::prelude::*;
use vstd::slice::slice_subrange;
use crate::command;
use crate::command::{not_run, output_text, CommandResult, CommandView};
use crate::docker;
use crate::docker::{DockerMap, PublishedView};
use crate::model;
use crate::model::{Entry, EntryView, Proto};
use crate::number;
use crate::number::read_u32;
use crate::ss;
use crate::ss::{read_local_addr, read_local_port};
use crate::text;
use crate::text::{chars_of, position_of_text, split_lines, split_words, string_of};

verus! {

/// The first word of a file name such as `*:5353 (IDLE)`.
pub open spec fn file_addr(name: Seq<char>) -> Seq<char> {
    if text::words(name).len() > 0 {
        text::words(name)[0]
    } else {
        name
    }
}

/// The listener that a file describes, if it is one. A file without a name is
/// none, nor is a connected socket such as `10.0.0.1:80->10.0.0.2:4711`.
pub open spec fn file_entries(
    proto: Proto,
    pid: Option<u32>,
    cmd: Seq<char>,
    name: Option<Seq<char>>,
    published: Seq<PublishedView>,
) -> Seq<EntryView> {
    match name {
        None => Seq::empty(),
        Some(n) => {
            let addr = file_addr(n);
            if text::find_text(addr, "->"@) is Some {
                Seq::empty()
            } else {
                match ss::local_port(addr) {
                    None => Seq::empty(),
                    Some(port) => seq![
                        model::found(
                            proto,
                            ss::local_addr(addr),
                            port,
                            pid,
                            cmd,
                            docker::container_of(published, proto, ss::local_addr(addr), port),
                        ),
                    ],
                }
            }
        },
    }
}

/// What has been read so far: the process, its command, the file it is at
/// and the listeners found.
#[verifier::ext_equal]
pub struct Reading {
    pub pid: Option<u32>,
    pub cmd: Seq<char>,
    pub has_file: bool,
    pub name: Option<Seq<char>>,
    pub found: Seq<EntryView>,
}

impl Reading {
    /// Before the first line.
    pub open spec fn start() -> Reading {
        Reading { pid: None, cmd: "?"@, has_file: false, name: None, found: Seq::empty() }
    }

    /// The listeners found, with that of the file being read.
    pub open spec fn flushed(self, proto: Proto, published: Seq<PublishedView>) -> Seq<EntryView> {
        if self.has_file {
            self.found + file_entries(proto, self.pid, self.cmd, self.name, published)
        } else {
            self.found
        }
    }

    /// After one more line. Its first character is its tag: `p` begins a
    /// process, `c` gives its command, `f` begins a file, `n` names it.
    pub open spec fn next(
        self,
        line: Seq<char>,
        proto: Proto,
        published: Seq<PublishedView>,
    ) -> Reading {
        if line.len() == 0 {
            self
        } else {
            let value = line.skip(1);
            if line[0] == 'p' {
                Reading {
                    pid: number::parse_u32(value),
                    cmd: "?"@,
                    has_file: false,
                    name: None,
                    found: self.flushed(proto, published),
                }
            } else if line[0] == 'c' {
                Reading { cmd: value, ..self }
            } else if line[0] == 'f' {
                Reading {
                    has_file: true,
                    name: None,
                    found: self.flushed(proto, published),
                    ..self
                }
            } else if line[0] == 'n' {
                Reading { name: Some(value), ..self }
            } else {
                self
            }
        }
    }
}

/// After all of `lines`.
pub open spec fn read_all(
    lines: Seq<Seq<char>>,
    proto: Proto,
    published: Seq<PublishedView>,
) -> Reading
    decreases lines.len(),
{
    if lines.len() == 0 {
        Reading::start()
    } else {
        read_all(lines.drop_last(), proto, published).next(lines.last(), proto, published)
    }
}

/// The listeners that the lines of `lsof` describe.
pub open spec fn lines_entries(
    lines: Seq<Seq<char>>,
    proto: Proto,
    published: Seq<PublishedView>,
) -> Seq<EntryView> {
    read_all(lines, proto, published).flushed(proto, published)
}

/// Appends the listener that a file describes, if it is one.
pub fn flush_lsof(
    proto: Proto,
    pid: Option<u32>,
    cmd: &str,
    name: &Option<String>,
    docker_map: &DockerMap,
    out: &mut Vec<Entry>,
)
    ensures
        model::views(final(out)@) == model::views(old(out)@) + file_entries(
            proto,
            pid,
            cmd@,
            model::opt_view(*name),
            docker_map@,
        ),
{
    let ghost before = model::views(out@);
    assert(before + Seq::<EntryView>::empty() =~= before);
    let n = match name {
        Some(n) => chars_of(n.as_str()),
        None => {
            return;
        },
    };
    let parts = split_words(n.as_slice());
    assert(text::words(n@).len() == parts@.len());
    let addr: &[char] = if parts.len() > 0 {
        assert(text::words(n@)[0] == parts@[0]@);
        parts[0]
    } else {
        n.as_slice()
    };
    if position_of_text(addr, "->").is_some() {
        return;
    }
    match read_local_port(addr) {
        None => {},
        Some(port) => {
            let host = read_local_addr(addr);
            let docker = docker_map.lookup(proto, host, port);
            let e = Entry::new(proto, string_of(host), port, pid, cmd.to_owned(), docker);
            proof {
                model::lemma_views_push(out@, e);
            }
            out.push(e);
            assert(model::views(out@) =~= before + seq![e@]);
        },
    }
}

/// Reads the listeners in the output of `lsof` and appends them to `out`.
pub fn collect_lsof(stdout: &str, proto: Proto, docker_map: &DockerMap, out: &mut Vec<Entry>)
    ensures
        model::views(final(out)@) == model::views(old(out)@) + lines_entries(
            text::lines(stdout@),
            proto,
            docker_map@,
        ),
{
    let ghost before = model::views(out@);
    let cs = chars_of(stdout);
    let lines = split_lines(cs.as_slice());
    let ghost all = text::lines(stdout@);
    let mut cur_pid: Option<u32> = None;
    let mut cur_cmd: String = "?".to_owned();
    let mut has_file: bool = false;
    let mut cur_name: Option<String> = None;
    let mut i: usize = 0;
    assert(all.take(0) =~= Seq::<Seq<char>>::empty());
    assert(before + Seq::<EntryView>::empty() =~= before);
    while i < lines.len()
        invariant
            i <= lines@.len(),
            all == text::pieces(lines@),
            ({
                let r = read_all(all.take(i as int), proto, docker_map@);
                &&& r.pid == cur_pid
                &&& r.cmd == cur_cmd@
                &&& r.has_file == has_file
                &&& r.name == model::opt_view(cur_name)
                &&& model::views(out@) =~= before + r.found
            }),
        decreases lines@.len() - i,
    {
        let line = lines[i];
        let ghost r = read_all(all.take(i as int), proto, docker_map@);
        assert(all.take(i + 1).drop_last() =~= all.take(i as int));
        assert(all.take(i + 1).last() == line@);
        if line.len() > 0 {
            let value = slice_subrange(line, 1, line.len());
            assert(value@ =~= line@.skip(1));
            let tag = line[0];
            if tag == 'p' || tag == 'f' {
                if has_file {
                    flush_lsof(proto, cur_pid, cur_cmd.as_str(), &cur_name, docker_map, out);
                }
                assert(model::views(out@) =~= before + r.flushed(proto, docker_map@));
                cur_name = None;
                if tag == 'p' {
                    has_file = false;
                    cur_pid = read_u32(value);
                    cur_cmd = "?".to_owned();
                } else {
                    has_file = true;
                }
            } else if tag == 'c' {
                cur_cmd = string_of(value);
            } else if tag == 'n' {
                cur_name = Some(string_of(value));
            }
        }
        i += 1;
    }
    assert(all.take(i as int) =~= all);
    if has_file {
        flush_lsof(proto, cur_pid, cur_cmd.as_str(), &cur_name, docker_map, out);
    }
    assert(model::views(out@) =~= before + lines_entries(all, proto, docker_map@));
}

/// Reads the listeners in the output of `lsof` for TCP and for UDP.
pub fn read_listening(tcp: &str, udp: &str, docker_map: &DockerMap) -> (out: Vec<Entry>)
    ensures
        model::views(out@) == lines_entries(text::lines(tcp@), Proto::Tcp, docker_map@)
            + lines_entries(text::lines(udp@), Proto::Udp, docker_map@),
{
    let mut out: Vec<Entry> = Vec::new();
    assert(model::views(out@) =~= Seq::<EntryView>::empty());
    collect_lsof(tcp, Proto::Tcp, docker_map, &mut out);
    collect_lsof(udp, Proto::Udp, docker_map, &mut out);
    assert(model::views(out@) =~= lines_entries(text::lines(tcp@), Proto::Tcp, docker_map@)
        + lines_entries(text::lines(udp@), Proto::Udp, docker_map@));
    out
}

/// What is wrong with a run of `lsof`, if anything is. One that found nothing
/// exits with a failure, so only one that did not start counts.
pub open spec fn lsof_error(r: CommandView) -> Option<Seq<char>> {
    match r {
        CommandView::Ran { .. } => None,
        CommandView::NotSpawned { message } => Some(
            command::not_run_text("lsof"@, message, ""@),
        ),
    }
}

fn check(r: &CommandResult) -> (e: Option<String>)
    ensures
        model::opt_view(e) == lsof_error(r@),
{
    match r {
        CommandResult::Ran { .. } => None,
        CommandResult::NotSpawned { message } => Some(not_run("lsof", message.as_str(), "")),
    }
}

/// Reads the listeners from what came of `lsof` for TCP and for UDP. If
/// either did not start, the report on the first is returned instead.
pub fn collect_listening(
    tcp: &CommandResult,
    udp: &CommandResult,
    docker_map: &DockerMap,
) -> (r: Result<Vec<Entry>, String>)
    ensures
        match (lsof_error(tcp@), lsof_error(udp@)) {
            (Some(e), _) => r is Err && r->Err_0@ == e,
            (None, Some(e)) => r is Err && r->Err_0@ == e,
            (None, None) => r is Ok && model::views(r->Ok_0@) == lines_entries(
                text::lines(command::written(tcp@)),
                Proto::Tcp,
                docker_map@,
            ) + lines_entries(text::lines(command::written(udp@)), Proto::Udp, docker_map@),
        },
{
    if let Some(e) = check(tcp) {
        return Err(e);
    }
    if let Some(e) = check(udp) {
        return Err(e);
    }
    let t = output_text(tcp);
    let u = output_text(udp);
    Ok(read_listening(t.as_str(), u.as_str(), docker_map))
}

} // verus!
