//! What holds of reading sockets and processes: whatever `ss` or `/proc`
//! writes about a listener is found again.

use vstd::prelude::*;
use crate::docker;
use crate::docker::PublishedView;
use crate::model::{EntryView, Proto};
use crate::number;
use crate::process;
use crate::ss;
use crate::text;
use crate::text_laws;
use crate::wait;

verus! {

// ---------------------------------------------------------------------------
// Addresses
// ---------------------------------------------------------------------------

/// A written number holds no character but digits.
pub proof fn lemma_decimal_lacks(n: nat, c: char)
    requires
        !('0' <= c <= '9'),
    ensures
        !number::decimal(n).contains(c),
        number::decimal(n).len() > 0,
{
    let d = number::decimal(n);
    text_laws::law_numbers_read_back(n);
    if d.contains(c) {
        let i = choose|i: int| 0 <= i < d.len() && d[i] == c;
        assert('0' <= d[i] <= '9');
    }
}

/// A local address as it is written: a host, a colon and a port.
pub open spec fn host_port(host: Seq<char>, port: u32) -> Seq<char> {
    host + seq![':'] + number::decimal(port as nat)
}

/// The port is read back from a local address, whatever the host looks like;
/// only the port zero is none.
pub proof fn law_port_reads_back(host: Seq<char>, port: u32)
    ensures
        ss::local_port(host_port(host, port)) == if port > 0 {
            Some(port)
        } else {
            None
        },
        ss::local_addr(host_port(host, port)) == docker::bare_addr(host),
{
    let d = number::decimal(port as nat);
    lemma_decimal_lacks(port as nat, ':');
    lemma_decimal_lacks(port as nat, ']');
    text_laws::lemma_last(host, ':', d);
    text_laws::law_numbers_read_back(port as nat);
    assert(d.last() != ']') by {
        assert(d[d.len() - 1] == d.last());
    }
    assert(text::trim_end_char(d, ']') == d);
}

/// An address in brackets, or with a zone behind it, is read without them,
/// and one without either is read as it is.
pub proof fn law_address_reads_back(addr: Seq<char>, zone: Seq<char>)
    requires
        addr.len() > 0,
        !addr.contains('%'),
        addr[0] != '[' && addr.last() != ']',
        !(addr.len() >= 7 && addr.take(7) == "::ffff:"@),
    ensures
        docker::bare_addr(addr) == addr,
        docker::bare_addr(addr + seq!['%'] + zone) == addr,
        docker::bare_addr(seq!['['] + addr + seq![']']) == addr,
{
    reveal_strlit("::ffff:");
    text_laws::lemma_none(addr, '%');
    text_laws::lemma_first(addr, '%', zone);
    assert(text::trim_start_char(addr, '[') == addr);
    assert(text::trim_end_char(addr, ']') == addr);
    assert(!text::stands_at(addr, "::ffff:"@, 0)) by {
        if text::stands_at(addr, "::ffff:"@, 0) {
            assert(addr.subrange(0, 7) =~= addr.take(7));
        }
    }
    let b = seq!['['] + addr + seq![']'];
    assert(!b.contains('%')) by {
        if b.contains('%') {
            let i = choose|i: int| 0 <= i < b.len() && b[i] == '%';
            assert(addr[i - 1] == '%');
        }
    }
    text_laws::lemma_none(b, '%');
    let c = addr + seq![']'];
    assert(b.skip(1) =~= c);
    assert(c[0] == addr[0]);
    assert(text::trim_start_char(c, '[') == c);
    assert(text::trim_start_char(b, '[') == c);
    assert(c.last() == ']');
    assert(c.drop_last() =~= addr);
    assert(text::trim_end_char(c, ']') == addr);
}

/// An IPv4 address that an IPv6 socket listens on is read in its own form.
pub proof fn law_mapped_address_reads_back(addr: Seq<char>)
    requires
        addr.contains('.'),
        !addr.contains('%'),
        addr.last() != ']',
    ensures
        docker::bare_addr(seq!['['] + ("::ffff:"@ + addr) + seq![']']) == addr,
{
    reveal_strlit("::ffff:");
    let m = "::ffff:"@ + addr;
    let b = seq!['['] + m + seq![']'];
    let c = m + seq![']'];
    assert(!b.contains('%')) by {
        if b.contains('%') {
            let i = choose|i: int| 0 <= i < b.len() && b[i] == '%';
            if 8 <= i < b.len() - 1 {
                assert(addr[i - 8] == '%');
            }
        }
    }
    text_laws::lemma_none(b, '%');
    assert(b.skip(1) =~= c);
    assert(c[0] == ':');
    assert(text::trim_start_char(c, '[') == c);
    assert(text::trim_start_char(b, '[') == c);
    assert(c.drop_last() =~= m);
    let k = choose|k: int| 0 <= k < addr.len() && addr[k] == '.';
    assert(m.last() == addr.last());
    assert(text::trim_end_char(m, ']') == m);
    assert(text::trim_end_char(c, ']') == m);
    assert(m.subrange(0, 7) =~= "::ffff:"@);
    assert(m.skip(7) =~= addr);
    text::lemma_find_char(addr, '.');
    assert(addr[k] == '.');
}

// ---------------------------------------------------------------------------
// Lines of ss
// ---------------------------------------------------------------------------

/// A line with the words `head`, a local address and `end` behind it.
pub open spec fn ss_line(
    head: Seq<Seq<char>>,
    gaps: Seq<Seq<char>>,
    host: Seq<char>,
    port: u32,
    end: Seq<char>,
) -> Seq<char> {
    text_laws::laid_out(head.push(host_port(host, port)), gaps, end)
}

/// Whether a line can be taken apart again: three words, a local address
/// without white space, gaps between them.
pub open spec fn ss_line_fits(
    head: Seq<Seq<char>>,
    gaps: Seq<Seq<char>>,
    host: Seq<char>,
    port: u32,
    end: Seq<char>,
) -> bool {
    &&& head.len() == 3
    &&& port > 0
    &&& text_laws::apart(head.push(host_port(host, port)), gaps, end)
}

proof fn lemma_ss_line(
    head: Seq<Seq<char>>,
    gaps: Seq<Seq<char>>,
    host: Seq<char>,
    port: u32,
    end: Seq<char>,
)
    requires
        ss_line_fits(head, gaps, host, port, end),
    ensures
        ({
            let f = text::words(ss_line(head, gaps, host, port, end));
            &&& f.len() >= 4
            &&& f[3] == host_port(host, port)
            &&& ss::local_port(f[3]) == Some(port)
            &&& ss::local_addr(f[3]) == docker::bare_addr(host)
        }),
{
    let ws = head.push(host_port(host, port));
    text_laws::law_words_read_back(ws, gaps, end);
    law_port_reads_back(host, port);
    assert((ws + text::words(end))[3] == ws[3]);
}

/// Every line of `ss` with a local address yields a listener, and each
/// listener of it has the protocol, the address, the port and the container
/// of that address.
pub proof fn law_every_line_is_a_listener(
    head: Seq<Seq<char>>,
    gaps: Seq<Seq<char>>,
    host: Seq<char>,
    port: u32,
    end: Seq<char>,
    proto: Proto,
    published: Seq<PublishedView>,
    i: int,
)
    requires
        ss_line_fits(head, gaps, host, port, end),
    ensures
        ({
            let es = ss::line_entries(ss_line(head, gaps, host, port, end), proto, published);
            &&& es.len() > 0
            &&& 0 <= i < es.len() ==> {
                &&& es[i].proto == proto
                &&& es[i].port == port
                &&& es[i].addr == docker::bare_addr(host)
                &&& es[i].docker == docker::container_of(
                    published,
                    proto,
                    docker::bare_addr(host),
                    port,
                )
                &&& es[i].cwd.len() == 0 && es[i].cmdline.len() == 0
                &&& !es[i].user_launched
            }
        }),
{
    lemma_ss_line(head, gaps, host, port, end);
}

/// A line of `ss` that names processes yields one listener for each of them,
/// in order, with its name and number; one that names none yields a listener
/// whose process is unknown.
pub proof fn law_every_process_of_a_line_is_a_listener(
    head: Seq<Seq<char>>,
    gaps: Seq<Seq<char>>,
    host: Seq<char>,
    port: u32,
    end: Seq<char>,
    us: Seq<(Seq<char>, u32)>,
    fds: Seq<nat>,
    proto: Proto,
    published: Seq<PublishedView>,
)
    requires
        fds.len() == us.len(),
        forall|i: int| 0 <= i < us.len() ==> ss::unquoted((#[trigger] us[i]).0),
        us.len() > 0,
        ss_line_fits(head, gaps, host, port, end + ss::column_from("users:(("@, us, fds)),
        forall|j: int|
            0 <= j < ss_line(head, gaps, host, port, end).len() ==> !text::stands_at(
                ss_line(head, gaps, host, port, end + ss::column_from("users:(("@, us, fds)),
                "users:"@,
                j,
            ),
    ensures
        ({
            let line = ss_line(head, gaps, host, port, end + ss::column_from("users:(("@, us, fds));
            let es = ss::line_entries(line, proto, published);
            &&& es.len() == us.len()
            &&& forall|i: int|
                0 <= i < us.len() ==> (#[trigger] es[i]).pid == Some(us[i].1) && es[i].process
                    == us[i].0
        }),
{
    let column = ss::column_from("users:(("@, us, fds);
    let line = ss_line(head, gaps, host, port, end + column);
    let front = ss_line(head, gaps, host, port, end);
    lemma_ss_line(head, gaps, host, port, end + column);
    ss::law_processes_are_read_back(us, fds);
    lemma_laid_out_end(head.push(host_port(host, port)), gaps, end, column);
    assert(line =~= front + column);
    reveal_strlit("users:");
    reveal_strlit("users:((");
    text::lemma_find_from(line, "users:"@, 0);
    let n = front.len() as int;
    assert(line.subrange(n, n + 6) =~= "users:"@) by {
        assert forall|k: int| 0 <= k < 6 implies line.subrange(n, n + 6)[k] == "users:"@[k] by {
            assert(column[k] == "users:(("@[k]);
        }
    }
    assert(text::stands_at(line, "users:"@, n));
    assert(text::find_text(line, "users:"@) == Some(n));
    assert(line.skip(n) =~= column);
    assert(ss::line_users(line) == us);
}

proof fn lemma_laid_out_end(
    ws: Seq<Seq<char>>,
    gs: Seq<Seq<char>>,
    a: Seq<char>,
    b: Seq<char>,
)
    ensures
        text_laws::laid_out(ws, gs, a + b) == text_laws::laid_out(ws, gs, a) + b,
    decreases ws.len(),
{
    if ws.len() > 0 {
        lemma_laid_out_end(ws.skip(1), gs.skip(1), a, b);
        assert(text_laws::laid_out(ws, gs, a + b) =~= text_laws::laid_out(ws, gs, a) + b);
    }
}

/// A line of `ss` that names no process yields one listener, of an unknown
/// process.
pub proof fn law_hidden_process_is_a_listener(
    head: Seq<Seq<char>>,
    gaps: Seq<Seq<char>>,
    host: Seq<char>,
    port: u32,
    end: Seq<char>,
    proto: Proto,
    published: Seq<PublishedView>,
)
    requires
        ss_line_fits(head, gaps, host, port, end),
        forall|j: int| !text::stands_at(ss_line(head, gaps, host, port, end), "users:"@, j),
    ensures
        ({
            let es = ss::line_entries(ss_line(head, gaps, host, port, end), proto, published);
            es.len() == 1 && es[0].pid is None && es[0].process == "?"@
        }),
{
    lemma_ss_line(head, gaps, host, port, end);
    text::lemma_find_from(ss_line(head, gaps, host, port, end), "users:"@, 0);
}

/// Every listener of every line is in the list, line by line in order.
pub proof fn law_every_line_counts(
    lines: Seq<Seq<char>>,
    more: Seq<Seq<char>>,
    proto: Proto,
    published: Seq<PublishedView>,
)
    ensures
        ss::lines_entries(lines + more, proto, published) == ss::lines_entries(
            lines,
            proto,
            published,
        ) + ss::lines_entries(more, proto, published),
        lines.len() == 1 ==> ss::lines_entries(lines, proto, published) == ss::line_entries(
            lines[0],
            proto,
            published,
        ),
    decreases more.len(),
{
    let all = lines + more;
    if more.len() == 0 {
        assert(all =~= lines);
        assert(ss::lines_entries(all, proto, published) =~= ss::lines_entries(
            lines,
            proto,
            published,
        ) + ss::lines_entries(more, proto, published));
    } else {
        law_every_line_counts(lines, more.drop_last(), proto, published);
        assert(all.drop_last() =~= lines + more.drop_last());
        assert(all.last() == more.last());
        assert(ss::lines_entries(all, proto, published) =~= ss::lines_entries(
            lines,
            proto,
            published,
        ) + ss::lines_entries(more, proto, published));
    }
    if lines.len() == 1 {
        assert(lines.drop_last() =~= Seq::<Seq<char>>::empty());
        assert(ss::lines_entries(lines.drop_last(), proto, published) =~= Seq::<EntryView>::empty());
        assert(ss::lines_entries(lines, proto, published) =~= ss::line_entries(
            lines[0],
            proto,
            published,
        ));
    }
}

// ---------------------------------------------------------------------------
// /proc/<pid>/stat
// ---------------------------------------------------------------------------

/// A line of `/proc/<pid>/stat`: the number and the name of the process, a
/// closing parenthesis, and the fields behind it.
pub open spec fn stat_line(
    before: Seq<char>,
    fields: Seq<Seq<char>>,
    gaps: Seq<Seq<char>>,
    end: Seq<char>,
) -> Seq<char> {
    before + seq![')'] + text_laws::laid_out(fields, gaps, end)
}

/// Whether the fields can be told apart, and none of them closes a
/// parenthesis; the name of the process may.
pub open spec fn stat_line_fits(
    fields: Seq<Seq<char>>,
    gaps: Seq<Seq<char>>,
    end: Seq<char>,
) -> bool {
    &&& text_laws::apart(fields, gaps, end)
    &&& !text_laws::laid_out(fields, gaps, end).contains(')')
}

proof fn lemma_stat_line(
    before: Seq<char>,
    fields: Seq<Seq<char>>,
    gaps: Seq<Seq<char>>,
    end: Seq<char>,
)
    requires
        stat_line_fits(fields, gaps, end),
    ensures
        ({
            let line = stat_line(before, fields, gaps, end);
            &&& text::rfind_char(line, ')') == Some(before.len() as int)
            &&& text::words(line.skip(before.len() as int + 1)) == fields + text::words(end)
        }),
{
    text_laws::lemma_last(before, ')', text_laws::laid_out(fields, gaps, end));
    text_laws::law_words_read_back(fields, gaps, end);
}

/// A process has a terminal exactly if the fifth field behind its name is a
/// number other than zero, whatever the name is.
pub proof fn law_terminal_is_read(
    before: Seq<char>,
    fields: Seq<Seq<char>>,
    gaps: Seq<Seq<char>>,
    end: Seq<char>,
    tty: i32,
)
    requires
        fields.len() == 5,
        fields[4] == number::decimal_int(tty as int),
        stat_line_fits(fields, gaps, end),
    ensures
        process::stat_has_tty(stat_line(before, fields, gaps, end)) == (tty != 0),
{
    lemma_stat_line(before, fields, gaps, end);
    assert((fields + text::words(end))[4] == fields[4]);
    if tty < 0 {
        text_laws::law_numbers_read_back((-(tty as int)) as nat);
    } else {
        text_laws::law_numbers_read_back(tty as nat);
    }
}

/// A process without a terminal is a user's exactly if its executable, less
/// what follows a digit or a dot, is an interpreter; one with a terminal
/// always is.
pub proof fn law_user_servers(has_tty: bool, exe: Option<Seq<char>>)
    ensures
        has_tty ==> process::user_launched(has_tty, exe),
        !has_tty && exe is None ==> !process::user_launched(has_tty, exe),
        !has_tty && exe is Some ==> process::user_launched(has_tty, exe) == (
        process::is_interpreter(process::stem(exe.unwrap()))),
{
}

/// The interpreters, and the servers that one runs, that tell a user's server
/// from a system daemon.
pub proof fn law_interpreters(name: Seq<char>)
    ensures
        process::is_interpreter(name) <==> (name == "python"@ || name == "node"@ || name == "deno"@
            || name == "bun"@ || name == "ruby"@ || name == "java"@ || name == "php"@ || name
            == "php-fpm"@ || name == "perl"@ || name == "dotnet"@ || name == "erl"@ || name
            == "beam"@ || name == "uvicorn"@ || name == "gunicorn"@ || name == "hypercorn"@ || name
            == "daphne"@ || name == "puma"@ || name == "unicorn"@ || name == "rails"@),
{
}

/// The stem of a name is all of it up to the first digit or dot.
pub proof fn law_stem(name: Seq<char>, rest: Seq<char>)
    requires
        forall|i: int|
            0 <= i < name.len() ==> !('0' <= (#[trigger] name[i]) <= '9') && name[i] != '.',
        rest.len() == 0 || '0' <= rest[0] <= '9' || rest[0] == '.',
    ensures
        process::stem(name + rest) == name,
    decreases name.len(),
{
    let w = name + rest;
    if name.len() == 0 {
        assert(w =~= rest);
        assert(process::stem(w) =~= name);
    } else {
        assert(w[0] == name[0]);
        assert(w.skip(1) =~= name.skip(1) + rest);
        assert forall|i: int| 0 <= i < name.skip(1).len() implies !('0' <= (
        #[trigger] name.skip(1)[i]) <= '9') && name.skip(1)[i] != '.' by {
            assert(name.skip(1)[i] == name[i + 1]);
        }
        law_stem(name.skip(1), rest);
        assert(name =~= seq![name[0]] + name.skip(1));
    }
}

/// A process is alive unless the first field behind its name says that it is
/// a zombie or dying.
pub proof fn law_state_is_read(
    before: Seq<char>,
    state: Seq<char>,
    gap: Seq<char>,
    end: Seq<char>,
)
    requires
        stat_line_fits(seq![state], seq![gap], end),
    ensures
        wait::stat_alive(stat_line(before, seq![state], seq![gap], end)) == !(state == "Z"@ || state
            == "X"@),
{
    lemma_stat_line(before, seq![state], seq![gap], end);
    assert((seq![state] + text::words(end))[0] == state);
}

/// An IPv6 address that only begins like a mapped one is kept whole.
pub proof fn law_other_address_is_kept(x: Seq<char>)
    requires
        !x.contains('.'),
        !x.contains('%'),
        x.len() > 0,
        x.last() != ']',
    ensures
        docker::bare_addr("::ffff:"@ + x) == "::ffff:"@ + x,
{
    reveal_strlit("::ffff:");
    let a = "::ffff:"@ + x;
    assert(!a.contains('%')) by {
        if a.contains('%') {
            let i = choose|i: int| 0 <= i < a.len() && a[i] == '%';
            if 7 <= i {
                assert(x[i - 7] == '%');
            }
        }
    }
    text_laws::lemma_none(a, '%');
    assert(a[0] == ':');
    assert(text::trim_start_char(a, '[') == a);
    assert(a.last() == x.last());
    assert(text::trim_end_char(a, ']') == a);
    assert(a.skip(7) =~= x);
    text_laws::lemma_none(x, '.');
}

/// A process without a number is passed over, and those behind it are read.
pub proof fn law_process_without_a_number_is_passed_over(
    lead: Seq<char>,
    name: Seq<char>,
    rest: Seq<char>,
)
    requires
        !lead.contains('"'),
        !name.contains('"'),
        ss::pid_in(ss::before_quote(rest)) is None,
    ensures
        ss::users(lead + seq!['"'] + (name + seq!['"'] + rest)) == ss::users(rest),
{
    text_laws::lemma_first(lead, '"', name + seq!['"'] + rest);
    text_laws::lemma_first(name, '"', rest);
}

} // verus!
