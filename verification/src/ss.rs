//! Listeners on Linux, from the output of `ss`.

use vstd::prelude::*;
use vstd::slice::slice_subrange;
use crate::command;
use crate::command::{failed, not_run, output_text, CommandResult, CommandView};
use crate::docker;
use crate::docker::{strip_addr, DockerMap, PublishedView};
use crate::model;
use crate::model::{copy_docker, DockerView, Entry, EntryView, Proto};
use crate::number;
use crate::number::{digit, read_u32};
use crate::text;
use crate::text::{
    chars_of, last_position_of, position_of, position_of_text, split_lines, split_words, string_of,
    text_of, without_trailing,
};

verus! {

// ---------------------------------------------------------------------------
// The process column
// ---------------------------------------------------------------------------

/// How many digits `s` begins with.
pub open spec fn digit_run(s: Seq<char>) -> nat
    decreases s.len(),
{
    if s.len() == 0 || !number::is_digit(s[0]) {
        0
    } else {
        1 + digit_run(s.skip(1))
    }
}

/// The process number that the first `pid=` in `zone` states.
pub open spec fn pid_in(zone: Seq<char>) -> Option<u32> {
    match text::find_text(zone, "pid="@) {
        None => None,
        Some(i) => {
            let rest = zone.skip(i + 4);
            number::parse_u32(rest.take(digit_run(rest) as int))
        },
    }
}

/// What stands in `s` before its first double quote.
pub open spec fn before_quote(s: Seq<char>) -> Seq<char> {
    match text::find_char(s, '"') {
        Some(i) => s.take(i),
        None => s,
    }
}

/// The processes in a column such as
/// `users:(("nginx",pid=7,fd=6),("nginx",pid=8,fd=6))`: a name in double
/// quotes, and its number behind the next `pid=` before any further quote.
/// A name without a number is passed over.
pub open spec fn users(s: Seq<char>) -> Seq<(Seq<char>, u32)>
    decreases s.len(),
    when true
    via users_decreases
{
    match text::find_char(s, '"') {
        None => Seq::empty(),
        Some(open) => {
            let t = s.skip(open + 1);
            match text::find_char(t, '"') {
                None => Seq::empty(),
                Some(close) => {
                    let rest = t.skip(close + 1);
                    match pid_in(before_quote(rest)) {
                        Some(pid) => seq![(t.take(close), pid)] + users(rest),
                        None => users(rest),
                    }
                },
            }
        },
    }
}

#[via_fn]
proof fn users_decreases(s: Seq<char>) {
    text::lemma_find_char(s, '"');
    match text::find_char(s, '"') {
        None => {},
        Some(open) => {
            text::lemma_find_char(s.skip(open + 1), '"');
        },
    }
}

/// The contents of a list of processes.
pub open spec fn user_views(v: Seq<(String, u32)>) -> Seq<(Seq<char>, u32)> {
    v.map_values(|u: (String, u32)| (u.0@, u.1))
}

fn count_digits(s: &[char]) -> (r: usize)
    ensures
        r == digit_run(s@),
        r <= s@.len(),
{
    let mut i: usize = 0;
    assert(s@.skip(0) =~= s@);
    while i < s.len() && digit(s[i])
        invariant
            i <= s@.len(),
            digit_run(s@) == i + digit_run(s@.skip(i as int)),
        decreases s@.len() - i,
    {
        assert(s@.skip(i as int).skip(1) =~= s@.skip(i + 1));
        i += 1;
    }
    i
}

fn read_pid(zone: &[char]) -> (r: Option<u32>)
    ensures
        r == pid_in(zone@),
{
    match position_of_text(zone, "pid=") {
        None => None,
        Some(i) => {
            proof {
                reveal_strlit("pid=");
            }
            let rest = slice_subrange(zone, i + 4, zone.len());
            assert(rest@ =~= zone@.skip(i + 4));
            let n: usize = count_digits(rest);
            let digits = slice_subrange(rest, 0, n);
            assert(digits@ =~= rest@.take(n as int));
            read_u32(digits)
        },
    }
}

/// Reads the processes in a `users:` column.
pub fn parse_users(s: &str) -> (out: Vec<(String, u32)>)
    ensures
        user_views(out@) == users(s@),
{
    let cs = chars_of(s);
    read_users(cs.as_slice())
}

fn read_users(s: &[char]) -> (out: Vec<(String, u32)>)
    ensures
        user_views(out@) == users(s@),
{
    let mut out: Vec<(String, u32)> = Vec::new();
    let mut rest: &[char] = s;
    loop
        invariant
            user_views(out@) + users(rest@) =~= users(s@),
        decreases rest@.len(),
    {
        proof {
            text::lemma_find_char(rest@, '"');
        }
        let open: usize = match position_of(rest, '"') {
            Some(i) => i,
            None => {
                return out;
            },
        };
        let t = slice_subrange(rest, open + 1, rest.len());
        assert(t@ =~= rest@.skip(open + 1));
        let close: usize = match position_of(t, '"') {
            Some(i) => i,
            None => {
                return out;
            },
        };
        let name = slice_subrange(t, 0, close);
        let tail = slice_subrange(t, close + 1, t.len());
        assert(name@ =~= t@.take(close as int));
        assert(tail@ =~= t@.skip(close + 1));
        let zone = match position_of(tail, '"') {
            Some(i) => {
                let z = slice_subrange(tail, 0, i);
                assert(z@ =~= tail@.take(i as int));
                z
            },
            None => tail,
        };
        if let Some(pid) = read_pid(zone) {
            let ghost before = user_views(out@);
            out.push((string_of(name), pid));
            assert(user_views(out@) =~= before.push((name@, pid)));
            assert(before + (seq![(name@, pid)] + users(tail@)) =~= before.push((name@, pid))
                + users(tail@));
        }
        rest = tail;
    }
}

// ---------------------------------------------------------------------------
// Reading back what was written
// ---------------------------------------------------------------------------

/// What stands between the name of a process and the next one, or the end.
pub open spec fn after_name(pid: u32, fd: nat, last: bool) -> Seq<char> {
    ",pid="@ + number::decimal(pid as nat) + ",fd="@ + number::decimal(fd) + (if last {
        "))"@
    } else {
        "),("@
    })
}

/// The text from `lead` on of a column that names the processes `us`, with
/// the file descriptors `fds`.
pub open spec fn column_from(
    lead: Seq<char>,
    us: Seq<(Seq<char>, u32)>,
    fds: Seq<nat>,
) -> Seq<char>
    decreases us.len(),
{
    if us.len() == 0 {
        lead
    } else {
        lead + seq!['"'] + us[0].0 + seq!['"'] + column_from(
            after_name(us[0].1, fds[0], us.len() == 1),
            us.skip(1),
            fds.skip(1),
        )
    }
}

/// Whether there is no double quote in `s`.
pub open spec fn unquoted(s: Seq<char>) -> bool {
    forall|i: int| 0 <= i < s.len() ==> #[trigger] s[i] != '"'
}

proof fn lemma_first_quote(a: Seq<char>, b: Seq<char>)
    requires
        unquoted(a),
    ensures
        text::find_char(a + seq!['"'] + b, '"') == Some(a.len() as int),
{
    let w = a + seq!['"'] + b;
    text::lemma_find_char(w, '"');
    assert(w[a.len() as int] == '"');
    let i = text::find_char(w, '"').unwrap();
    if i < a.len() {
        assert(w[i] == a[i]);
    }
}

proof fn lemma_digit_run(d: Seq<char>, s: Seq<char>)
    requires
        forall|i: int| 0 <= i < d.len() ==> number::is_digit(#[trigger] d[i]),
        s.len() > 0,
        !number::is_digit(s[0]),
    ensures
        digit_run(d + s) == d.len(),
    decreases d.len(),
{
    let w = d + s;
    if d.len() == 0 {
        assert(w =~= s);
    } else {
        assert(w[0] == d[0]);
        assert(number::is_digit(d[0]));
        assert(w.skip(1) =~= d.skip(1) + s);
        assert forall|i: int| 0 <= i < d.skip(1).len() implies number::is_digit(
            #[trigger] d.skip(1)[i],
        ) by {
            assert(d.skip(1)[i] == d[i + 1]);
        }
        lemma_digit_run(d.skip(1), s);
    }
}

proof fn lemma_after_name(pid: u32, fd: nat, last: bool)
    ensures
        unquoted(after_name(pid, fd, last)),
        pid_in(after_name(pid, fd, last)) == Some(pid),
{
    reveal_strlit(",pid=");
    reveal_strlit("pid=");
    reveal_strlit(",fd=");
    reveal_strlit("))");
    reveal_strlit("),(");
    let p = number::decimal(pid as nat);
    let f = number::decimal(fd);
    number::lemma_decimal_digits(pid as nat);
    number::lemma_decimal_digits(fd);
    number::law_decimal_reads_back(pid as nat);
    let end = if last {
        "))"@
    } else {
        "),("@
    };
    let z = after_name(pid, fd, last);
    let tail = ",fd="@ + f + end;
    assert(z =~= ",pid="@ + p + tail);
    assert forall|i: int| 0 <= i < z.len() implies #[trigger] z[i] != '"' by {
        let m = 5 + p.len();
        if 5 <= i < m {
            assert(z[i] == p[i - 5]);
            assert(number::is_digit(p[i - 5]));
        } else if m <= i < m + 4 {
            assert(z[i] == ",fd="@[i - m]);
        } else if m + 4 <= i < m + 4 + f.len() {
            assert(z[i] == f[i - m - 4]);
            assert(number::is_digit(f[i - m - 4]));
        } else if m + 4 + f.len() <= i {
            assert(z[i] == end[i - m - 4 - f.len()]);
        }
    }
    text::lemma_find_from(z, "pid="@, 0);
    assert(z.subrange(1, 5) =~= "pid="@);
    assert(text::stands_at(z, "pid="@, 1));
    assert(!text::stands_at(z, "pid="@, 0)) by {
        if text::stands_at(z, "pid="@, 0) {
            assert(z.subrange(0, 4)[0] == z[0]);
        }
    }
    assert(text::find_text(z, "pid="@) == Some(1int));
    assert(z.skip(5) =~= p + tail);
    assert(tail[0] == ',');
    lemma_digit_run(p, tail);
    assert((p + tail).take(p.len() as int) =~= p);
}

proof fn lemma_column(lead: Seq<char>, us: Seq<(Seq<char>, u32)>, fds: Seq<nat>)
    requires
        unquoted(lead),
        fds.len() == us.len(),
        forall|i: int| 0 <= i < us.len() ==> unquoted((#[trigger] us[i]).0),
    ensures
        users(column_from(lead, us, fds)) == us,
        before_quote(column_from(lead, us, fds)) == lead,
    decreases us.len(),
{
    let s = column_from(lead, us, fds);
    if us.len() == 0 {
        text::lemma_find_char(s, '"');
        assert(us =~= Seq::<(Seq<char>, u32)>::empty());
    } else {
        let name = us[0].0;
        let next = after_name(us[0].1, fds[0], us.len() == 1);
        let more = us.skip(1);
        let rest = column_from(next, more, fds.skip(1));
        lemma_after_name(us[0].1, fds[0], us.len() == 1);
        assert forall|i: int| 0 <= i < more.len() implies unquoted((#[trigger] more[i]).0) by {
            assert(more[i] == us[i + 1]);
        }
        lemma_column(next, more, fds.skip(1));
        let t = name + seq!['"'] + rest;
        assert(s =~= lead + seq!['"'] + t);
        lemma_first_quote(lead, t);
        assert(s.take(lead.len() as int) =~= lead);
        assert(s.skip(lead.len() as int + 1) =~= t);
        assert(unquoted(name));
        lemma_first_quote(name, rest);
        assert(t.take(name.len() as int) =~= name);
        assert(t.skip(name.len() as int + 1) =~= rest);
        assert(users(s) == seq![(name, us[0].1)] + users(rest));
        assert(us =~= seq![us[0]] + more);
    }
}

/// Every process that a column names is found with its number, whatever
/// white space or brackets its name holds.
pub proof fn law_processes_are_read_back(us: Seq<(Seq<char>, u32)>, fds: Seq<nat>)
    requires
        fds.len() == us.len(),
        forall|i: int| 0 <= i < us.len() ==> unquoted((#[trigger] us[i]).0),
    ensures
        users(column_from("users:(("@, us, fds)) == us,
{
    reveal_strlit("users:((");
    lemma_column("users:(("@, us, fds);
}

// ---------------------------------------------------------------------------
// Lines
// ---------------------------------------------------------------------------

/// The port at the end of a local address such as `127.0.0.1:8080`.
pub open spec fn local_port(local: Seq<char>) -> Option<u32> {
    let tail = match text::rfind_char(local, ':') {
        Some(i) => local.skip(i + 1),
        None => local,
    };
    match number::parse_u32(text::trim_end_char(tail, ']')) {
        Some(p) => if p > 0 {
            Some(p)
        } else {
            None
        },
        None => None,
    }
}

/// The bare address in front of the port of a local address.
pub open spec fn local_addr(local: Seq<char>) -> Seq<char> {
    match text::rfind_char(local, ':') {
        Some(i) => docker::bare_addr(local.take(i)),
        None => Seq::empty(),
    }
}

/// Reads the port at the end of a local address.
pub fn read_local_port(local: &[char]) -> (r: Option<u32>)
    ensures
        r == local_port(local@),
{
    let tail = match last_position_of(local, ':') {
        Some(i) => {
            let t = slice_subrange(local, i + 1, local.len());
            assert(t@ =~= local@.skip(i + 1));
            t
        },
        None => local,
    };
    match read_u32(without_trailing(tail, ']')) {
        Some(p) => if p > 0 {
            Some(p)
        } else {
            None
        },
        None => None,
    }
}

/// Reads the bare address of a local address.
pub fn read_local_addr(local: &[char]) -> (r: &[char])
    ensures
        r@ == local_addr(local@),
{
    match last_position_of(local, ':') {
        Some(i) => {
            let host = slice_subrange(local, 0, i);
            assert(host@ =~= local@.take(i as int));
            strip_addr(host)
        },
        None => {
            let none = slice_subrange(local, 0, 0);
            assert(none@ =~= Seq::<char>::empty());
            none
        },
    }
}

/// The processes that a line names. The column is looked for in the line as
/// it stands, because a process name may hold white space.
pub open spec fn line_users(line: Seq<char>) -> Seq<(Seq<char>, u32)> {
    match text::find_text(line, "users:"@) {
        Some(i) => users(line.skip(i)),
        None => Seq::empty(),
    }
}

/// A listener for each process of a socket, or one without a process where
/// none can be seen.
pub open spec fn socket_entries(
    proto: Proto,
    addr: Seq<char>,
    port: u32,
    docker: Option<DockerView>,
    processes: Seq<(Seq<char>, u32)>,
) -> Seq<EntryView> {
    if processes.len() == 0 {
        seq![model::found(proto, addr, port, None, "?"@, docker)]
    } else {
        processes.map_values(
            |u: (Seq<char>, u32)| model::found(proto, addr, port, Some(u.1), u.0, docker),
        )
    }
}

/// The listeners on a line of `ss`: the fourth field is the local address.
pub open spec fn line_entries(
    line: Seq<char>,
    proto: Proto,
    published: Seq<PublishedView>,
) -> Seq<EntryView> {
    let fields = text::words(line);
    if fields.len() < 4 {
        Seq::empty()
    } else {
        match local_port(fields[3]) {
            None => Seq::empty(),
            Some(port) => socket_entries(
                proto,
                local_addr(fields[3]),
                port,
                docker::container_of(published, proto, local_addr(fields[3]), port),
                line_users(line),
            ),
        }
    }
}

/// The listeners on the lines of `ss`.
pub open spec fn lines_entries(
    lines: Seq<Seq<char>>,
    proto: Proto,
    published: Seq<PublishedView>,
) -> Seq<EntryView>
    decreases lines.len(),
{
    if lines.len() == 0 {
        Seq::empty()
    } else {
        lines_entries(lines.drop_last(), proto, published) + line_entries(
            lines.last(),
            proto,
            published,
        )
    }
}

fn read_line(line: &[char], proto: Proto, docker_map: &DockerMap, out: &mut Vec<Entry>)
    ensures
        model::views(final(out)@) == model::views(old(out)@) + line_entries(
            line@,
            proto,
            docker_map@,
        ),
{
    let ghost before = model::views(out@);
    let fields = split_words(line);
    let ghost fs = text::words(line@);
    assert(fs.len() == fields@.len());
    if fields.len() < 4 {
        assert(before + Seq::<EntryView>::empty() =~= before);
        return;
    }
    assert(fs[3] == fields@[3]@);
    let local = fields[3];
    let port: u32 = match read_local_port(local) {
        Some(p) => p,
        None => {
            assert(before + Seq::<EntryView>::empty() =~= before);
            return;
        },
    };
    let addr = read_local_addr(local);
    let docker = docker_map.lookup(proto, addr, port);
    let ghost dock = model::opt_docker(docker);
    let processes: Vec<(String, u32)> = match position_of_text(line, "users:") {
        Some(i) => {
            let column = slice_subrange(line, i, line.len());
            assert(column@ =~= line@.skip(i as int));
            read_users(column)
        },
        None => {
            let none: Vec<(String, u32)> = Vec::new();
            assert(user_views(none@) =~= Seq::<(Seq<char>, u32)>::empty());
            none
        },
    };
    let ghost us = line_users(line@);
    assert(us.len() == processes@.len());
    let ghost all = socket_entries(proto, addr@, port, dock, us);
    if processes.len() == 0 {
        let e = Entry::new(proto, string_of(addr), port, None, "?".to_owned(), docker);
        proof {
            model::lemma_views_push(out@, e);
        }
        out.push(e);
        assert(model::views(out@) =~= before + all);
        return;
    }
    let mut i: usize = 0;
    assert(all.take(0) =~= Seq::<EntryView>::empty());
    while i < processes.len()
        invariant
            i <= processes@.len(),
            us == user_views(processes@),
            us.len() > 0,
            all == socket_entries(proto, addr@, port, dock, us),
            dock == model::opt_docker(docker),
            model::views(out@) =~= before + all.take(i as int),
        decreases processes@.len() - i,
    {
        let name = processes[i].0.clone();
        let pid: u32 = processes[i].1;
        assert(us[i as int] == (name@, pid));
        let e = Entry::new(proto, string_of(addr), port, Some(pid), name, copy_docker(&docker));
        proof {
            model::lemma_views_push(out@, e);
            assert(all[i as int] == e@);
            assert(all.take(i + 1) =~= all.take(i as int).push(e@));
        }
        out.push(e);
        i += 1;
    }
    assert(all.take(i as int) =~= all);
}

/// Reads the listeners on a line of `ss` and appends them to `out`.
pub fn parse_ss_line(line: &str, proto: Proto, docker_map: &DockerMap, out: &mut Vec<Entry>)
    ensures
        model::views(final(out)@) == model::views(old(out)@) + line_entries(
            line@,
            proto,
            docker_map@,
        ),
{
    let cs = chars_of(line);
    read_line(cs.as_slice(), proto, docker_map, out);
}

/// Reads the listeners in the output of `ss` and appends them to `out`.
pub fn collect_ss(stdout: &str, proto: Proto, docker_map: &DockerMap, out: &mut Vec<Entry>)
    ensures
        model::views(final(out)@) == model::views(old(out)@) + lines_entries(
            text::lines(stdout@),
            proto,
            docker_map@,
        ),
{
    let ghost before = model::views(out@);
    let cs = chars_of(stdout);
    let lines = split_lines(cs.as_slice());
    let ghost all = text::lines(stdout@);
    let mut i: usize = 0;
    assert(all.take(0) =~= Seq::<Seq<char>>::empty());
    while i < lines.len()
        invariant
            i <= lines@.len(),
            all == text::pieces(lines@),
            model::views(out@) =~= before + lines_entries(all.take(i as int), proto, docker_map@),
        decreases lines@.len() - i,
    {
        assert(all.take(i + 1).drop_last() =~= all.take(i as int));
        assert(all.take(i + 1).last() == lines@[i as int]@);
        read_line(lines[i], proto, docker_map, out);
        i += 1;
    }
    assert(all.take(i as int) =~= all);
}

/// Reads the listeners in the output of `ss -tlnpH` and `ss -ulnpH`.
pub fn read_listening(tcp: &str, udp: &str, docker_map: &DockerMap) -> (out: Vec<Entry>)
    ensures
        model::views(out@) == lines_entries(text::lines(tcp@), Proto::Tcp, docker_map@)
            + lines_entries(text::lines(udp@), Proto::Udp, docker_map@),
{
    let mut out: Vec<Entry> = Vec::new();
    assert(model::views(out@) =~= Seq::<EntryView>::empty());
    collect_ss(tcp, Proto::Tcp, docker_map, &mut out);
    collect_ss(udp, Proto::Udp, docker_map, &mut out);
    assert(model::views(out@) =~= lines_entries(text::lines(tcp@), Proto::Tcp, docker_map@)
        + lines_entries(text::lines(udp@), Proto::Udp, docker_map@));
    out
}

/// What is wrong with a run of `ss`, if anything is.
pub open spec fn ss_error(r: CommandView) -> Option<Seq<char>> {
    match r {
        CommandView::Ran { success: true, .. } => None,
        CommandView::Ran { success: false, code, stderr, .. } => Some(
            command::failed_text("ss"@, code, text::utf8_lossy(stderr)),
        ),
        CommandView::NotSpawned { message } => Some(
            command::not_run_text("ss"@, message, " Install iproute2 (provides `ss`)."@),
        ),
    }
}

fn check(r: &CommandResult) -> (e: Option<String>)
    ensures
        model::opt_view(e) == ss_error(r@),
{
    match r {
        CommandResult::Ran { success, code, stderr, .. } => if *success {
            None
        } else {
            let detail = text_of(stderr.as_slice());
            Some(failed("ss", *code, detail.as_str()))
        },
        CommandResult::NotSpawned { message } => Some(
            not_run("ss", message.as_str(), " Install iproute2 (provides `ss`)."),
        ),
    }
}

/// Reads the listeners from what came of `ss -tlnpH` and `ss -ulnpH`. If
/// either failed, the report on the first that did is returned instead, so
/// that a broken `ss` never looks like a machine without listeners.
pub fn collect_listening(
    tcp: &CommandResult,
    udp: &CommandResult,
    docker_map: &DockerMap,
) -> (r: Result<Vec<Entry>, String>)
    ensures
        match (ss_error(tcp@), ss_error(udp@)) {
            (Some(e), _) => r is Err && r->Err_0@ == e,
            (None, Some(e)) => r is Err && r->Err_0@ == e,
            (None, None) => r is Ok && model::views(r->Ok_0@) == lines_entries(
                text::lines(command::written(tcp@)),
                Proto::Tcp,
                docker_map@,
            ) + lines_entries(text::lines(command::written(udp@)), Proto::Udp, docker_map@),
        },
{
    if let Some(e) = check(tcp) {
        return Err(e);
    }
    if let Some(e) = check(udp) {
        return Err(e);
    }
    let t = output_text(tcp);
    let u = output_text(udp);
    Ok(read_listening(t.as_str(), u.as_str(), docker_map))
}

} // verus!
