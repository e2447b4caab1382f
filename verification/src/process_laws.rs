//! What holds of reading about processes.

use vstd::prelude::*;
use crate::docker;
use crate::docker::PublishedView;
use crate::lsof;
use crate::model;
use crate::model::{EntryView, Proto};
use crate::number;
use crate::process;
use crate::process::ProcessView;
use crate::process_mac;
use crate::socket_laws;
use crate::text;
use crate::text_laws;

verus! {

// ---------------------------------------------------------------------------
// Linux
// ---------------------------------------------------------------------------

/// A listener learns the directory, the command line and the launch mark that
/// were read about its process last, and keeps everything else.
pub proof fn law_process_info_reaches_its_listener(
    before: Seq<ProcessView>,
    p: ProcessView,
    behind: Seq<ProcessView>,
    e: EntryView,
)
    requires
        e.pid == Some(p.pid),
        forall|i: int| 0 <= i < behind.len() ==> (#[trigger] behind[i]).pid != p.pid,
    ensures
        ({
            let r = process::with_process(e, before.push(p) + behind);
            &&& r.cwd == p.cwd
            &&& r.cmdline == p.cmdline
            &&& r.user_launched == p.user_launched
            &&& r.port == e.port && r.proto == e.proto && r.pid == e.pid && r.docker == e.docker
            &&& r.process == e.process && r.addr == e.addr && r.stats == e.stats
        }),
    decreases behind.len(),
{
    let all = before.push(p) + behind;
    if behind.len() == 0 {
        assert(all =~= before.push(p));
        assert(all.last() == p);
    } else {
        let b = behind.drop_last();
        assert(all.drop_last() =~= before.push(p) + b);
        assert(all.last() == behind[behind.len() - 1]);
        assert forall|i: int| 0 <= i < b.len() implies (#[trigger] b[i]).pid != p.pid by {
            assert(b[i] == behind[i]);
        }
        law_process_info_reaches_its_listener(before, p, b, e);
    }
}

/// A listener of an unknown process shows dashes, and one whose process was
/// not read about stays as it is.
pub proof fn law_unknown_processes_show_dashes(info: Seq<ProcessView>, e: EntryView)
    ensures
        e.pid is None ==> process::with_process(e, info).cwd == "-"@ && process::with_process(
            e,
            info,
        ).cmdline == "-"@ && process::with_process(e, info).port == e.port,
        e.pid is Some && (forall|i: int|
            0 <= i < info.len() ==> Some((#[trigger] info[i]).pid) != e.pid)
            ==> process::with_process(e, info) == e,
{
    if e.pid is Some && (forall|i: int|
        0 <= i < info.len() ==> Some((#[trigger] info[i]).pid) != e.pid) {
        lemma_not_read(info, e.pid.unwrap());
    }
}

proof fn lemma_not_read(info: Seq<ProcessView>, pid: u32)
    requires
        forall|i: int| 0 <= i < info.len() ==> (#[trigger] info[i]).pid != pid,
    ensures
        process::info_of(info, pid) is None,
    decreases info.len(),
{
    if info.len() > 0 {
        let b = info.drop_last();
        assert forall|i: int| 0 <= i < b.len() implies (#[trigger] b[i]).pid != pid by {
            assert(b[i] == info[i]);
        }
        assert(info[info.len() - 1].pid != pid);
        lemma_not_read(b, pid);
    }
}

/// The name of a file is what stands behind the slash in front of it, whether
/// or not slashes and single dots follow.
pub proof fn law_file_name(dir: Seq<u8>, name: Seq<u8>)
    requires
        name.len() > 0,
        !name.contains(0x2f),
        name != seq![0x2eu8],
        name != seq![0x2eu8, 0x2eu8],
    ensures
        process::file_name(name) == Some(name),
        process::file_name(dir.push(0x2f) + name) == Some(name),
        process::file_name((dir.push(0x2f) + name).push(0x2f)) == Some(name),
        process::file_name((dir.push(0x2f) + name).push(0x2f).push(0x2e)) == Some(name),
        process::file_name((dir.push(0x2f) + name).push(0x2f) + seq![0x2eu8, 0x2eu8]) is None,
{
    lemma_behind_slash(dir, name);
    lemma_no_slash(name);
    let path = dir.push(0x2f) + name;
    let none = Seq::<u8>::empty();
    lemma_behind_slash(path, none);
    assert(path.push(0x2f) + none =~= path.push(0x2f));
    let dot = seq![0x2eu8];
    lemma_behind_slash(path, dot);
    assert(path.push(0x2f) + dot =~= path.push(0x2f).push(0x2e));
    let dots = seq![0x2eu8, 0x2eu8];
    lemma_behind_slash(path, dots);
    assert(dots.len() == 2 && dot.len() == 1);
    assert(process::file_name(path) == Some(name));
}

proof fn lemma_no_slash(s: Seq<u8>)
    requires
        !s.contains(0x2f),
    ensures
        process::last_slash(s) is None,
    decreases s.len(),
{
    if s.len() > 0 {
        assert(s[s.len() - 1] != 0x2f);
        assert(!s.drop_last().contains(0x2f)) by {
            if s.drop_last().contains(0x2f) {
                let i = choose|i: int| 0 <= i < s.drop_last().len() && s.drop_last()[i] == 0x2f;
                assert(s[i] == 0x2f);
            }
        }
        lemma_no_slash(s.drop_last());
    }
}

proof fn lemma_behind_slash(dir: Seq<u8>, name: Seq<u8>)
    requires
        !name.contains(0x2f),
    ensures
        process::last_slash(dir.push(0x2f) + name) == Some(dir.len() as int),
        (dir.push(0x2f) + name).take(dir.len() as int) == dir,
        process::last_part(dir.push(0x2f) + name) == name,
    decreases name.len(),
{
    let path = dir.push(0x2f) + name;
    assert(path.take(dir.len() as int) =~= dir);
    assert(path.skip(dir.len() as int + 1) =~= name);
    if name.len() == 0 {
        assert(path.last() == 0x2f);
    } else {
        let n = name.drop_last();
        assert(name[name.len() - 1] != 0x2f);
        assert(path.last() == name.last());
        assert(path.drop_last() =~= dir.push(0x2f) + n);
        assert(!n.contains(0x2f)) by {
            if n.contains(0x2f) {
                let i = choose|i: int| 0 <= i < n.len() && n[i] == 0x2f;
                assert(name[i] == 0x2f);
            }
        }
        lemma_behind_slash(dir, n);
    }
}

/// A command line is shown without the white space around it, and as a dash
/// where nothing is left; every NUL between its words is a space.
pub proof fn law_command_line(
    before: Seq<char>,
    s: Seq<char>,
    behind: Seq<char>,
    bytes: Seq<u8>,
    i: int,
)
    requires
        text_laws::blank(before),
        text_laws::blank(behind),
        s.len() > 0 ==> !text::is_space(s[0]) && !text::is_space(s.last()),
        0 <= i < bytes.len(),
    ensures
        process::shown_cmdline(before + s + behind) == if s.len() > 0 {
            s
        } else {
            "-"@
        },
        process::spaced(bytes).len() == bytes.len(),
        process::spaced(bytes)[i] == if bytes[i] == 0 {
            0x20u8
        } else {
            bytes[i]
        },
{
    text_laws::law_trim(before, s, behind);
}

/// The list of processes handed to a command names each of them.
pub proof fn law_process_list_reads_back(pids: Seq<u32>)
    requires
        pids.len() > 0,
    ensures
        text::split(process::comma_list(pids), ',') == pids.map_values(
            |p: u32| number::decimal(p as nat),
        ),
{
    let ds = pids.map_values(|p: u32| number::decimal(p as nat));
    lemma_comma_list(pids);
    assert forall|i: int| 0 <= i < ds.len() implies !(#[trigger] ds[i]).contains(',') by {
        socket_laws::lemma_decimal_lacks(pids[i] as nat, ',');
    }
    text_laws::law_split_reads_back(ds, ',');
}

proof fn lemma_comma_list(pids: Seq<u32>)
    requires
        pids.len() > 0,
    ensures
        process::comma_list(pids) == text_laws::joined_by(
            pids.map_values(|p: u32| number::decimal(p as nat)),
            ',',
        ),
    decreases pids.len(),
{
    reveal_strlit(",");
    let f = |p: u32| number::decimal(p as nat);
    let ds = pids.map_values(f);
    if pids.len() > 1 {
        lemma_comma_list(pids.drop_last());
        assert(pids.drop_last().map_values(f) =~= ds.drop_last());
        lemma_joined_last(ds, ',');
        assert(","@ =~= seq![',']);
        assert(process::comma_list(pids) =~= text_laws::joined_by(ds, ','));
    } else {
        assert(pids.drop_last().len() == 0);
        assert(process::comma_list(pids) =~= text_laws::joined_by(ds, ','));
    }
}

proof fn lemma_joined_last(parts: Seq<Seq<char>>, sep: char)
    requires
        parts.len() > 1,
    ensures
        text_laws::joined_by(parts, sep) == text_laws::joined_by(parts.drop_last(), sep)
            + seq![sep] + parts.last(),
    decreases parts.len(),
{
    let rest = parts.skip(1);
    let front = parts.drop_last();
    if parts.len() == 2 {
        assert(text_laws::joined_by(rest, sep) == rest[0]);
        assert(text_laws::joined_by(front, sep) == front[0]);
    } else {
        lemma_joined_last(rest, sep);
        assert(rest.drop_last() =~= front.skip(1));
        assert(rest.last() == parts.last());
    }
    assert(text_laws::joined_by(parts, sep) =~= text_laws::joined_by(front, sep) + seq![sep]
        + parts.last());
}

// ---------------------------------------------------------------------------
// macOS
// ---------------------------------------------------------------------------

/// A line of `ps` tells whether its process has a terminal, and names its
/// executable, whose path may hold spaces; it tells nothing of others.
pub proof fn law_mac_terminal_is_read(
    pid: u32,
    tty: Seq<char>,
    dir: Seq<char>,
    exe: Seq<char>,
    path: Seq<Seq<char>>,
    gaps: Seq<Seq<char>>,
    end: Seq<char>,
    other: u32,
)
    requires
        path.len() > 0,
        text_laws::apart(seq![number::decimal(pid as nat), tty] + path, gaps, end),
        text_laws::blank(end),
        process_mac::spaced_words(path) == dir + seq!['/'] + exe,
        !exe.contains('/'),
    ensures
        ({
            let line = text_laws::laid_out(
                seq![number::decimal(pid as nat), tty] + path,
                gaps,
                end,
            );
            &&& process_mac::tty_in(line, pid) == Some(
                (!(tty == "??"@ || tty == "?"@ || tty == "-"@), exe),
            )
            &&& other != pid ==> process_mac::tty_in(line, other) is None
        }),
{
    let ws = seq![number::decimal(pid as nat), tty] + path;
    text_laws::law_words_read_back(ws, gaps, end);
    text_laws::lemma_no_words(end);
    assert(ws + text::words(end) =~= ws);
    assert(ws.skip(2) =~= path);
    text_laws::law_numbers_read_back(pid as nat);
    text_laws::lemma_last(dir, '/', exe);
}

/// A line of `ps` gives the whole command line of its process, and nothing of
/// another's.
pub proof fn law_mac_command_is_read(
    before: Seq<char>,
    pid: u32,
    gap: Seq<char>,
    cmd: Seq<char>,
    behind: Seq<char>,
    other: u32,
)
    requires
        text_laws::blank(before),
        text_laws::blank(gap),
        gap.len() > 0,
        text_laws::blank(behind),
        cmd.len() > 0 ==> !text::is_space(cmd[0]) && !text::is_space(cmd.last()),
    ensures
        ({
            let line = before + (number::decimal(pid as nat) + (gap + cmd + behind));
            &&& process_mac::cmdline_in(line, pid) == Some(
                if cmd.len() > 0 {
                    cmd
                } else {
                    "-"@
                },
            )
            &&& other != pid ==> process_mac::cmdline_in(line, other) is None
        }),
{
    let d = number::decimal(pid as nat);
    let rest = gap + cmd + behind;
    let t = d + rest;
    text_laws::law_numbers_read_back(pid as nat);
    text_laws::lemma_trim_gap(before, t);
    assert(t[0] == d[0]);
    assert(!text::is_space(t[0]));
    assert(text::trim_start(t) == t);
    assert(rest[0] == gap[0]);
    assert(text::is_space(gap[0]));
    assert forall|i: int| 0 <= i < d.len() implies !text::is_space(#[trigger] d[i]) by {
        assert('0' <= d[i] <= '9');
    }
    text_laws::lemma_word_len(d, rest);
    assert(t.take(d.len() as int) =~= d);
    assert(t.skip(d.len() as int) =~= rest);
    text_laws::law_trim(gap, cmd, behind);
}

/// The first directory that `lsof` names for a process is its working
/// directory, whatever it says of other processes.
pub proof fn law_mac_directory_is_read(
    before: Seq<Seq<char>>,
    pid: u32,
    path: Seq<char>,
    behind: Seq<Seq<char>>,
)
    requires
        process_mac::cwd_of(before, pid) is None,
    ensures
        process_mac::cwd_of(
            before.push(seq!['p'] + number::decimal(pid as nat)).push(seq!['f'] + "cwd"@).push(
                seq!['n'] + path,
            ) + behind,
            pid,
        ) == Some(path),
    decreases behind.len(),
{
    let p = seq!['p'] + number::decimal(pid as nat);
    let f = seq!['f'] + "cwd"@;
    let n = seq!['n'] + path;
    let s1 = before.push(p);
    let s2 = s1.push(f);
    let s3 = s2.push(n);
    let all = s3 + behind;
    if behind.len() == 0 {
        text_laws::law_numbers_read_back(pid as nat);
        assert(all =~= s3);
        assert(s1.drop_last() =~= before);
        assert(s2.drop_last() =~= s1);
        assert(s3.drop_last() =~= s2);
        assert(p[0] == 'p' && f[0] == 'f' && n[0] == 'n');
        assert(p.skip(1) =~= number::decimal(pid as nat));
        assert(n.skip(1) =~= path);
        assert(process_mac::current_pid(s1) == Some(pid));
        assert(process_mac::current_pid(s2) == Some(pid));
        assert(process_mac::cwd_of(s1, pid) is None);
        assert(process_mac::cwd_of(s2, pid) is None);
    } else {
        law_mac_directory_is_read(before, pid, path, behind.drop_last());
        assert(all.drop_last() =~= s3 + behind.drop_last());
    }
}

/// What the passes say reaches the listener of that process; a question mark
/// stands for what no pass states, and a dash for an unknown process.
pub proof fn law_mac_info_reaches_its_listener(
    e: EntryView,
    ttys: Seq<Seq<char>>,
    cmdlines: Seq<Seq<char>>,
    cwds: Seq<Seq<char>>,
)
    ensures
        ({
            let r = process_mac::with_process(e, ttys, cmdlines, cwds);
            &&& e.pid is None ==> r.cwd == "-"@ && r.cmdline == "-"@
            &&& e.pid is Some ==> {
                let pid = e.pid.unwrap();
                &&& process_mac::cwd_of(cwds, pid) is Some ==> Some(r.cwd) == process_mac::cwd_of(
                    cwds,
                    pid,
                )
                &&& process_mac::cwd_of(cwds, pid) is None ==> r.cwd == "?"@
                &&& process_mac::cmdline_of(cmdlines, pid) is Some ==> Some(r.cmdline)
                    == process_mac::cmdline_of(cmdlines, pid)
                &&& process_mac::cmdline_of(cmdlines, pid) is None ==> r.cmdline == "?"@
                &&& process_mac::tty_of(ttys, pid) is None ==> !r.user_launched
                &&& process_mac::tty_of(ttys, pid) is Some ==> r.user_launched == (
                process_mac::tty_of(ttys, pid).unwrap().0 || process::is_interpreter(
                    process::stem(process_mac::tty_of(ttys, pid).unwrap().1),
                ))
            }
            &&& r.port == e.port && r.proto == e.proto && r.pid == e.pid && r.docker == e.docker
            &&& r.process == e.process && r.addr == e.addr && r.stats == e.stats
        }),
{
}

/// Of several lines about a process the last counts, in both passes of `ps`.
pub proof fn law_mac_last_line_counts(
    before: Seq<Seq<char>>,
    line: Seq<char>,
    behind: Seq<Seq<char>>,
    pid: u32,
)
    ensures
        process_mac::tty_in(line, pid) is Some && (forall|i: int|
            0 <= i < behind.len() ==> process_mac::tty_in(#[trigger] behind[i], pid) is None)
            ==> process_mac::tty_of(before.push(line) + behind, pid) == process_mac::tty_in(
            line,
            pid,
        ),
        process_mac::cmdline_in(line, pid) is Some && (forall|i: int|
            0 <= i < behind.len() ==> process_mac::cmdline_in(#[trigger] behind[i], pid) is None)
            ==> process_mac::cmdline_of(before.push(line) + behind, pid) == process_mac::cmdline_in(
            line,
            pid,
        ),
    decreases behind.len(),
{
    let all = before.push(line) + behind;
    if behind.len() == 0 {
        assert(all =~= before.push(line));
        assert(all.last() == line);
    } else {
        let b = behind.drop_last();
        assert(all.drop_last() =~= before.push(line) + b);
        let last = behind[behind.len() - 1];
        assert(all.last() == last);
        law_mac_last_line_counts(before, line, b, pid);
        if forall|i: int|
            0 <= i < behind.len() ==> process_mac::tty_in(#[trigger] behind[i], pid) is None {
            assert(process_mac::tty_in(last, pid) is None);
            assert forall|i: int| 0 <= i < b.len() implies process_mac::tty_in(
                #[trigger] b[i],
                pid,
            ) is None by {
                assert(b[i] == behind[i]);
            }
        }
        if forall|i: int|
            0 <= i < behind.len() ==> process_mac::cmdline_in(#[trigger] behind[i], pid) is None {
            assert(process_mac::cmdline_in(last, pid) is None);
            assert forall|i: int| 0 <= i < b.len() implies process_mac::cmdline_in(
                #[trigger] b[i],
                pid,
            ) is None by {
                assert(b[i] == behind[i]);
            }
        }
    }
}

// ---------------------------------------------------------------------------
// lsof
// ---------------------------------------------------------------------------

/// The two lines of a file: its descriptor and its address.
pub open spec fn file_lines(fd: Seq<char>, host: Seq<char>, port: u32) -> Seq<Seq<char>> {
    seq![seq!['f'] + fd, seq!['n'] + socket_laws::host_port(host, port)]
}

/// The lines of a process with its files.
pub open spec fn record_lines(
    pid: u32,
    cmd: Seq<char>,
    fds: Seq<Seq<char>>,
    hosts: Seq<Seq<char>>,
    ports: Seq<u32>,
) -> Seq<Seq<char>>
    decreases fds.len(),
{
    if fds.len() == 0 {
        seq![seq!['p'] + number::decimal(pid as nat), seq!['c'] + cmd]
    } else {
        record_lines(pid, cmd, fds.drop_last(), hosts.drop_last(), ports.drop_last())
            + file_lines(fds.last(), hosts.last(), ports.last())
    }
}

/// Every socket that `lsof` lists for a process is a listener of it, in order
/// and behind the listeners of the processes before.
pub proof fn law_lsof_reads_back(
    before: Seq<Seq<char>>,
    pid: u32,
    cmd: Seq<char>,
    fds: Seq<Seq<char>>,
    hosts: Seq<Seq<char>>,
    ports: Seq<u32>,
    proto: Proto,
    published: Seq<PublishedView>,
)
    requires
        hosts.len() == fds.len(),
        ports.len() == fds.len(),
        forall|i: int| 0 <= i < ports.len() ==> #[trigger] ports[i] > 0,
        forall|i: int|
            0 <= i < hosts.len() ==> text_laws::solid((#[trigger] hosts[i]).push(':'))
                && !hosts[i].contains('>'),
    ensures
        ({
            let es = lsof::lines_entries(
                before + record_lines(pid, cmd, fds, hosts, ports),
                proto,
                published,
            );
            let old = lsof::lines_entries(before, proto, published);
            &&& es.len() == old.len() + fds.len()
            &&& forall|i: int| 0 <= i < old.len() ==> es[i] == #[trigger] old[i]
            &&& forall|i: int|
                0 <= i < fds.len() ==> {
                    let e = #[trigger] es[old.len() + i];
                    &&& e.proto == proto
                    &&& e.port == ports[i]
                    &&& e.addr == docker::bare_addr(hosts[i])
                    &&& e.pid == Some(pid)
                    &&& e.process == cmd
                    &&& e.docker == docker::container_of(
                        published,
                        proto,
                        docker::bare_addr(hosts[i]),
                        ports[i],
                    )
                }
        }),
{
    lemma_record(before, pid, cmd, fds, hosts, ports, proto, published);
}

/// The listener of one file.
pub open spec fn file_listener(
    pid: u32,
    cmd: Seq<char>,
    host: Seq<char>,
    port: u32,
    proto: Proto,
    published: Seq<PublishedView>,
) -> EntryView {
    model::found(
        proto,
        docker::bare_addr(host),
        port,
        Some(pid),
        cmd,
        docker::container_of(published, proto, docker::bare_addr(host), port),
    )
}

#[verifier::rlimit(50)]
proof fn lemma_record(
    before: Seq<Seq<char>>,
    pid: u32,
    cmd: Seq<char>,
    fds: Seq<Seq<char>>,
    hosts: Seq<Seq<char>>,
    ports: Seq<u32>,
    proto: Proto,
    published: Seq<PublishedView>,
)
    requires
        hosts.len() == fds.len(),
        ports.len() == fds.len(),
        forall|i: int| 0 <= i < ports.len() ==> #[trigger] ports[i] > 0,
        forall|i: int|
            0 <= i < hosts.len() ==> text_laws::solid((#[trigger] hosts[i]).push(':'))
                && !hosts[i].contains('>'),
    ensures
        ({
            let r = lsof::read_all(
                before + record_lines(pid, cmd, fds, hosts, ports),
                proto,
                published,
            );
            &&& r.pid == Some(pid)
            &&& r.cmd == cmd
            &&& r.has_file == (fds.len() > 0)
            &&& r.flushed(proto, published) == lsof::lines_entries(before, proto, published)
                + Seq::new(
                fds.len(),
                |i: int| file_listener(pid, cmd, hosts[i], ports[i], proto, published),
            )
        }),
    decreases fds.len(),
{
    let lines = record_lines(pid, cmd, fds, hosts, ports);
    let all = before + lines;
    let old = lsof::lines_entries(before, proto, published);
    let listeners = Seq::new(
        fds.len(),
        |i: int| file_listener(pid, cmd, hosts[i], ports[i], proto, published),
    );
    if fds.len() == 0 {
        let p = seq!['p'] + number::decimal(pid as nat);
        let c = seq!['c'] + cmd;
        let s1 = before.push(p);
        assert(all =~= s1.push(c));
        assert(all.drop_last() =~= s1);
        assert(s1.drop_last() =~= before);
        assert(p[0] == 'p' && c[0] == 'c');
        assert(p.skip(1) =~= number::decimal(pid as nat));
        assert(c.skip(1) =~= cmd);
        text_laws::law_numbers_read_back(pid as nat);
        let r0 = lsof::read_all(before, proto, published);
        let r1 = lsof::read_all(s1, proto, published);
        assert(s1.last() == p && all.last() == c);
        assert(r1 == r0.next(p, proto, published));
        assert(lsof::read_all(all, proto, published) == r1.next(c, proto, published));
        assert(old + listeners =~= old);
    } else {
        let (fd, host, port) = (fds.last(), hosts.last(), ports.last());
        let (fds1, hosts1, ports1) = (fds.drop_last(), hosts.drop_last(), ports.drop_last());
        assert forall|i: int| 0 <= i < ports1.len() implies #[trigger] ports1[i] > 0 by {
            assert(ports1[i] == ports[i]);
        }
        assert forall|i: int| 0 <= i < hosts1.len() implies text_laws::solid(
            (#[trigger] hosts1[i]).push(':'),
        ) && !hosts1[i].contains('>') by {
            assert(hosts1[i] == hosts[i]);
        }
        lemma_record(before, pid, cmd, fds1, hosts1, ports1, proto, published);
        let prev = before + record_lines(pid, cmd, fds1, hosts1, ports1);
        let f = seq!['f'] + fd;
        let n = seq!['n'] + socket_laws::host_port(host, port);
        let s1 = prev.push(f);
        assert(all =~= s1.push(n));
        assert(all.drop_last() =~= s1);
        assert(s1.drop_last() =~= prev);
        assert(f[0] == 'f' && n[0] == 'n');
        assert(n.skip(1) =~= socket_laws::host_port(host, port));
        assert(text_laws::solid(hosts[hosts.len() - 1].push(':')));
        assert(!hosts[hosts.len() - 1].contains('>'));
        assert(ports[ports.len() - 1] > 0);
        lemma_file(host, port, proto, Some(pid), cmd, published);
        let e = file_listener(pid, cmd, host, port, proto, published);
        let before_list = Seq::new(
            fds1.len(),
            |i: int| file_listener(pid, cmd, hosts1[i], ports1[i], proto, published),
        );
        let r0 = lsof::read_all(prev, proto, published);
        let r1 = lsof::read_all(s1, proto, published);
        let r2 = lsof::read_all(all, proto, published);
        assert(s1.last() == f && all.last() == n);
        assert(r1 == r0.next(f, proto, published));
        assert(r2 == r1.next(n, proto, published));
        assert(r2.found == old + before_list);
        assert(r2.flushed(proto, published) =~= old + before_list + seq![e]);
        assert(old + before_list + seq![e] =~= old + listeners);
    }
}

proof fn lemma_file(
    host: Seq<char>,
    port: u32,
    proto: Proto,
    pid: Option<u32>,
    cmd: Seq<char>,
    published: Seq<PublishedView>,
)
    requires
        port > 0,
        text_laws::solid(host.push(':')),
        !host.contains('>'),
    ensures
        lsof::file_entries(
            proto,
            pid,
            cmd,
            Some(socket_laws::host_port(host, port)),
            published,
        ) == seq![
            model::found(
                proto,
                docker::bare_addr(host),
                port,
                pid,
                cmd,
                docker::container_of(published, proto, docker::bare_addr(host), port),
            ),
        ],
{
    let d = number::decimal(port as nat);
    let a = socket_laws::host_port(host, port);
    socket_laws::law_port_reads_back(host, port);
    text_laws::law_numbers_read_back(port as nat);
    let h = host.push(':');
    assert(a =~= h + d);
    assert forall|i: int| 0 <= i < a.len() implies !text::is_space(#[trigger] a[i]) by {
        if i < h.len() {
            assert(!text::is_space(h[i]));
        } else {
            assert('0' <= d[i - h.len()] <= '9');
        }
    }
    let none = Seq::<char>::empty();
    let ws = seq![a];
    let gs = seq![none];
    assert(ws.skip(1) =~= Seq::<Seq<char>>::empty());
    assert(text_laws::laid_out(ws.skip(1), gs.skip(1), none) == none);
    assert(text_laws::laid_out(ws, gs, none) =~= a);
    text_laws::law_words_read_back(ws, gs, none);
    text_laws::lemma_no_words(none);
    assert(ws + text::words(none) =~= ws);
    reveal_strlit("->");
    text::lemma_find_from(a, "->"@, 0);
    assert forall|j: int| 0 <= j implies !text::stands_at(a, "->"@, j) by {
        if text::stands_at(a, "->"@, j) {
            assert(a.subrange(j, j + 2)[1] == a[j + 1]);
            assert("->"@[1] == '>');
            if j + 1 < host.len() {
                assert(host[j + 1] == '>');
            } else if j + 1 > host.len() {
                assert('0' <= d[j - host.len()] <= '9');
            }
        }
    }
}

/// A connected socket is no listener.
pub proof fn law_connections_are_no_listeners(
    local: Seq<char>,
    remote: Seq<char>,
    proto: Proto,
    pid: Option<u32>,
    cmd: Seq<char>,
    published: Seq<PublishedView>,
)
    requires
        text_laws::solid(local + "->"@ + remote),
    ensures
        lsof::file_entries(proto, pid, cmd, Some(local + "->"@ + remote), published).len() == 0,
        lsof::file_entries(proto, pid, cmd, None, published).len() == 0,
{
    let a = local + "->"@ + remote;
    let none = Seq::<char>::empty();
    let ws = seq![a];
    let gs = seq![none];
    assert(text_laws::laid_out(ws.skip(1), gs.skip(1), none) == none);
    assert(text_laws::laid_out(ws, gs, none) =~= a);
    text_laws::law_words_read_back(ws, gs, none);
    text_laws::lemma_no_words(none);
    assert(ws + text::words(none) =~= ws);
    reveal_strlit("->");
    text::lemma_find_from(a, "->"@, 0);
    let n = local.len() as int;
    assert(a.subrange(n, n + 2) =~= "->"@);
    assert(text::stands_at(a, "->"@, n));
}

/// Words are put together with one space between each two.
pub proof fn law_words_are_spaced(front: Seq<Seq<char>>, word: Seq<char>)
    ensures
        process_mac::spaced_words(seq![word]) == word,
        front.len() > 0 ==> process_mac::spaced_words(front.push(word))
            == process_mac::spaced_words(front) + seq![' '] + word,
{
    reveal_strlit(" ");
    assert(" "@ =~= seq![' ']);
    assert(front.push(word).drop_last() =~= front);
}

/// A listener starts out with nothing known of it but its socket.
pub proof fn law_listeners_start_out_unknown(
    proto: Proto,
    addr: Seq<char>,
    port: u32,
    pid: Option<u32>,
    name: Seq<char>,
)
    ensures
        ({
            let e = model::found(proto, addr, port, pid, name, None);
            &&& e.proto == proto && e.addr == addr && e.port == port && e.pid == pid && e.process
                == name
            &&& e.docker is None && !e.user_launched
            &&& e.cwd.len() == 0 && e.cmdline.len() == 0
            &&& e.stats.cpu.len() == 0 && e.stats.mem.len() == 0 && e.stats.uptime.len() == 0
            &&& e.stats.user is None && e.stats.threads is None
        }),
{
}

/// A process that `lsof` does not name is shown as a question mark, and not
/// by the name of another.
pub proof fn law_nameless_process_is_a_listener(
    before: Seq<Seq<char>>,
    pid: u32,
    fd: Seq<char>,
    host: Seq<char>,
    port: u32,
    proto: Proto,
    published: Seq<PublishedView>,
)
    requires
        port > 0,
        text_laws::solid(host.push(':')),
        !host.contains('>'),
    ensures
        ({
            let lines = before.push(seq!['p'] + number::decimal(pid as nat)) + file_lines(
                fd,
                host,
                port,
            );
            lsof::lines_entries(lines, proto, published) == lsof::lines_entries(
                before,
                proto,
                published,
            ).push(file_listener(pid, "?"@, host, port, proto, published))
        }),
{
    let p = seq!['p'] + number::decimal(pid as nat);
    let f = seq!['f'] + fd;
    let n = seq!['n'] + socket_laws::host_port(host, port);
    let s1 = before.push(p);
    let s2 = s1.push(f);
    let all = s1 + file_lines(fd, host, port);
    assert(all =~= s2.push(n));
    assert(all.drop_last() =~= s2);
    assert(s2.drop_last() =~= s1);
    assert(s1.drop_last() =~= before);
    assert(p[0] == 'p' && f[0] == 'f' && n[0] == 'n');
    assert(p.skip(1) =~= number::decimal(pid as nat));
    assert(n.skip(1) =~= socket_laws::host_port(host, port));
    text_laws::law_numbers_read_back(pid as nat);
    let r0 = lsof::read_all(before, proto, published);
    let r1 = lsof::read_all(s1, proto, published);
    let r2 = lsof::read_all(s2, proto, published);
    let r3 = lsof::read_all(all, proto, published);
    assert(s1.last() == p && s2.last() == f && all.last() == n);
    assert(r1 == r0.next(p, proto, published));
    assert(r2 == r1.next(f, proto, published));
    assert(r3 == r2.next(n, proto, published));
    lemma_file(host, port, proto, Some(pid), "?"@, published);
    let e = file_listener(pid, "?"@, host, port, proto, published);
    assert(r3.flushed(proto, published) =~= r3.found + seq![e]);
}

/// What `lsof` writes behind an address, such as its state, is no part of it.
pub proof fn law_state_is_no_part_of_the_address(addr: Seq<char>, gap: Seq<char>, state: Seq<char>)
    requires
        text_laws::solid(addr),
        text_laws::blank(gap),
        gap.len() > 0,
    ensures
        lsof::file_addr(addr + gap + state) == addr,
        lsof::file_addr(addr) == addr,
{
    let none = Seq::<char>::empty();
    let ws = seq![addr];
    let gs = seq![none];
    assert(ws.skip(1) =~= Seq::<Seq<char>>::empty());
    let end = gap + state;
    assert(text::is_space(gap[0]));
    assert(end[0] == gap[0]);
    assert(text_laws::laid_out(ws.skip(1), gs.skip(1), end) == end);
    assert(text_laws::laid_out(ws, gs, end) =~= addr + gap + state);
    text_laws::law_words_read_back(ws, gs, end);
    assert((ws + text::words(end))[0] == addr);
    assert(text_laws::laid_out(ws.skip(1), gs.skip(1), none) == none);
    assert(text_laws::laid_out(ws, gs, none) =~= addr);
    text_laws::law_words_read_back(ws, gs, none);
    assert((ws + text::words(none))[0] == addr);
}

/// A directory of one process is not that of another.
pub proof fn law_mac_directory_of_another(
    before: Seq<Seq<char>>,
    other: u32,
    fd: Seq<char>,
    path: Seq<char>,
    pid: u32,
)
    requires
        pid != other,
    ensures
        process_mac::cwd_of(
            before.push(seq!['p'] + number::decimal(other as nat)).push(seq!['f'] + fd).push(
                seq!['n'] + path,
            ),
            pid,
        ) == process_mac::cwd_of(before, pid),
{
    let p = seq!['p'] + number::decimal(other as nat);
    let f = seq!['f'] + fd;
    let n = seq!['n'] + path;
    let s1 = before.push(p);
    let s2 = s1.push(f);
    let s3 = s2.push(n);
    text_laws::law_numbers_read_back(other as nat);
    assert(s1.drop_last() =~= before);
    assert(s2.drop_last() =~= s1);
    assert(s3.drop_last() =~= s2);
    assert(p[0] == 'p' && f[0] == 'f' && n[0] == 'n');
    assert(p.skip(1) =~= number::decimal(other as nat));
    assert(process_mac::current_pid(s1) == Some(other));
    assert(process_mac::current_pid(s2) == Some(other));
    assert(process_mac::cwd_of(s1, pid) == process_mac::cwd_of(before, pid));
    assert(process_mac::cwd_of(s2, pid) == process_mac::cwd_of(before, pid));
}

/// An executable goes by the last name of its path, and by none where its
/// link cannot be read.
pub proof fn law_executable_name(dir: Seq<u8>, name: Seq<u8>)
    requires
        name.len() > 0,
        !name.contains(0x2f),
        name != seq![0x2eu8],
        name != seq![0x2eu8, 0x2eu8],
    ensures
        process::exe_name(Some(dir.push(0x2f) + name)) == Some(text::utf8_lossy(name)),
        process::exe_name(None) is None,
{
    law_file_name(dir, name);
}

/// A socket in front of the first process is one of an unknown process.
pub proof fn law_socket_without_a_process_is_a_listener(
    fd: Seq<char>,
    host: Seq<char>,
    port: u32,
    proto: Proto,
    published: Seq<PublishedView>,
)
    requires
        port > 0,
        text_laws::solid(host.push(':')),
        !host.contains('>'),
    ensures
        ({
            let es = lsof::lines_entries(file_lines(fd, host, port), proto, published);
            &&& es.len() == 1
            &&& es[0].pid is None
            &&& es[0].process == "?"@
            &&& es[0].port == port && es[0].proto == proto
            &&& es[0].addr == docker::bare_addr(host)
        }),
{
    let f = seq!['f'] + fd;
    let n = seq!['n'] + socket_laws::host_port(host, port);
    let none = Seq::<Seq<char>>::empty();
    let s1 = none.push(f);
    let all = file_lines(fd, host, port);
    assert(all =~= s1.push(n));
    assert(all.drop_last() =~= s1);
    assert(s1.drop_last() =~= none);
    assert(f[0] == 'f' && n[0] == 'n');
    assert(n.skip(1) =~= socket_laws::host_port(host, port));
    let r0 = lsof::read_all(none, proto, published);
    let r1 = lsof::read_all(s1, proto, published);
    let r2 = lsof::read_all(all, proto, published);
    assert(s1.last() == f && all.last() == n);
    assert(r1 == r0.next(f, proto, published));
    assert(r2 == r1.next(n, proto, published));
    lemma_file(host, port, proto, None, "?"@, published);
}

} // verus!
