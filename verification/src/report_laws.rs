//! What holds of what is reported: which lines there are, and what they name.

use vstd::prelude::*;
use crate::args;
use crate::args::ArgErrorView;
use crate::command;
use crate::command::CommandView;
use crate::docker;
use crate::info;
use crate::kill;
use crate::kill::EventView;
use crate::lsof;
use crate::messages;
use crate::messages::Signal;
use crate::model::{DockerView, EntryView, Proto};
use crate::number;
use crate::ss;
use crate::table;
use crate::text;
use crate::text_laws;
use crate::update;
use crate::update::InstallOutcome;
use crate::wait;
use crate::wait::WaitStep;
use crate::width;

verus! {

/// Whether `part` stands somewhere in `s`.
pub open spec fn mentions(s: Seq<char>, part: Seq<char>) -> bool {
    exists|i: int| #[trigger] text::stands_at(s, part, i)
}

proof fn lemma_mentions(a: Seq<char>, part: Seq<char>, b: Seq<char>)
    ensures
        mentions(a + part + b, part),
{
    let s = a + part + b;
    let n = a.len() as int;
    assert(s.subrange(n, n + part.len()) =~= part);
    assert(text::stands_at(s, part, n));
}

/// What stands in a text still does when more follows.
proof fn lemma_mentions_more(s: Seq<char>, part: Seq<char>, more: Seq<char>)
    requires
        mentions(s, part),
    ensures
        mentions(s + more, part),
{
    let i = choose|i: int| #[trigger] text::stands_at(s, part, i);
    let t = s + more;
    assert(t.subrange(i, i + part.len()) =~= s.subrange(i, i + part.len()));
    assert(text::stands_at(t, part, i));
}

proof fn lemma_associative(a: Seq<char>, b: Seq<char>, c: Seq<char>)
    ensures
        a + b + c == a + (b + c),
{
    assert(a + b + c =~= a + (b + c));
}

// ---------------------------------------------------------------------------
// The detail view
// ---------------------------------------------------------------------------

/// Every labelled row of every listener has its line: the label, spaces up to
/// the width of the widest label, and the value.
pub proof fn law_every_detail_is_written(es: Seq<EntryView>, i: int, k: int)
    requires
        0 <= i < es.len(),
        0 <= k < info::info_rows(es[i]).len(),
    ensures
        ({
            let (label, value) = info::info_rows(es[i])[k];
            let gap = info::label_width(info::info_rows(es[i])) - width::text_width(label);
            &&& gap >= 0
            &&& info::info_text(es).contains(
                "  "@ + label + width::repeated(' ', gap as nat) + "  "@ + value,
            )
        }),
    decreases es.len(),
{
    let rows = info::info_rows(es[i]);
    let (label, value) = rows[k];
    let w = info::label_width(rows);
    lemma_label_width(rows, k);
    let gap = (w - width::text_width(label)) as nat;
    let line = "  "@ + label + width::repeated(' ', gap) + "  "@ + value;
    let block = info::info_block(es[i]);
    assert(info::row_line(rows[k], w) =~= line) by {
        if gap == 0 {
            assert(width::repeated(' ', gap) =~= Seq::<char>::empty());
        }
    }
    assert(block[k + 1] == line);
    let all = info::info_text(es);
    if es.len() > 1 {
        let front = info::info_text(es.drop_last());
        if i < es.len() - 1 {
            law_every_detail_is_written(es.drop_last(), i, k);
            let m = choose|m: int| 0 <= m < front.len() && front[m] == line;
            assert(all[m] == line);
        } else {
            assert(all[front.len() + 1 + k + 1] == line);
        }
    } else {
        assert(all[k + 1] == line);
    }
}

proof fn lemma_label_width(rows: Seq<(Seq<char>, Seq<char>)>, k: int)
    requires
        0 <= k < rows.len(),
    ensures
        width::text_width(rows[k].0) <= info::label_width(rows),
    decreases rows.len(),
{
    if k < rows.len() - 1 {
        lemma_label_width(rows.drop_last(), k);
        assert(rows.drop_last()[k] == rows[k]);
    }
}

/// The details of several listeners are those of the first ones, a blank
/// line, and those of the rest; the details of one are a line across and its
/// rows.
pub proof fn law_blocks_are_separated(a: Seq<EntryView>, b: Seq<EntryView>, e: EntryView)
    requires
        a.len() > 0,
        b.len() > 0,
    ensures
        info::info_text(a + b) == info::info_text(a) + seq![Seq::<char>::empty()]
            + info::info_text(b),
        info::info_text(seq![e]).len() == info::info_rows(e).len() + 1,
        info::info_text(Seq::empty()).len() == 0,
    decreases b.len(),
{
    let all = a + b;
    assert(all.drop_last() =~= a + b.drop_last());
    assert(all.last() == b.last());
    let blank = seq![Seq::<char>::empty()];
    if b.len() == 1 {
        assert(all.drop_last() =~= a);
        assert(info::info_text(b) == info::info_block(b[0]));
    } else {
        law_blocks_are_separated(a, b.drop_last(), e);
        assert(info::info_text(all) =~= info::info_text(a) + blank + info::info_text(b));
    }
}

/// The details of a process are its port, command, number, figures, directory
/// and command line, with its user and its threads where they are known.
pub proof fn law_details_of_a_process(e: EntryView, user: Seq<char>, threads: u32, i: int)
    requires
        e.docker is None,
        0 <= i < info::info_rows(e).len(),
    ensures
        ({
            let rows = info::info_rows(e);
            &&& rows.contains(
                ("PORT"@, e.proto.label() + "/"@ + number::decimal(e.port as nat)),
            )
            &&& rows.contains(("PROCESS"@, e.process))
            &&& rows.contains(("PID"@, table::pid_text(e.pid)))
            &&& rows.contains(("CPU"@, table::shown_figure(e.stats.cpu)))
            &&& rows.contains(("MEM"@, table::shown_figure(e.stats.mem)))
            &&& rows.contains(("UPTIME"@, table::shown_figure(e.stats.uptime)))
            &&& rows.contains(("CWD"@, e.cwd))
            &&& rows.contains(("CMD"@, e.cmdline))
            &&& e.stats.user == Some(user) ==> rows.contains(("USER"@, user))
            &&& e.stats.threads == Some(threads) ==> rows.contains(
                ("THREADS"@, number::decimal(threads as nat)),
            )
            &&& rows.len() == 8 + (if e.stats.user is Some {
                1int
            } else {
                0
            }) + (if e.stats.threads is Some {
                1int
            } else {
                0
            })
        }),
{
    let rows = info::info_rows(e);
    let u = if e.stats.user is Some {
        1int
    } else {
        0
    };
    let t = if e.stats.threads is Some {
        1int
    } else {
        0
    };
    assert(rows[0].0 == "PORT"@);
    assert(rows[1] == ("PROCESS"@, e.process));
    assert(rows[2] == ("PID"@, table::pid_text(e.pid)));
    assert(e.stats.user is Some ==> rows[3] == ("USER"@, e.stats.user.unwrap()));
    assert(rows[3 + u] == ("CPU"@, table::shown_figure(e.stats.cpu)));
    assert(rows[4 + u] == ("MEM"@, table::shown_figure(e.stats.mem)));
    assert(e.stats.threads is Some ==> rows[5 + u].0 == "THREADS"@);
    assert(rows[5 + u + t] == ("UPTIME"@, table::shown_figure(e.stats.uptime)));
    assert(rows[6 + u + t] == ("CWD"@, e.cwd));
    assert(rows[7 + u + t] == ("CMD"@, e.cmdline));
}

/// The details of a container are its ports outside and inside, its name,
/// image and directory, and its figures.
pub proof fn law_details_of_a_container(e: EntryView, d: DockerView, dir: Seq<char>)
    requires
        e.docker == Some(d),
    ensures
        ({
            let rows = info::info_rows(e);
            &&& rows.len() == 8
            &&& rows[0].0 == "PORT"@
            &&& mentions(rows[0].1, number::decimal(e.port as nat))
            &&& mentions(rows[0].1, number::decimal(d.container_port as nat))
            &&& rows.contains(("CONTAINER"@, d.name))
            &&& rows.contains(("IMAGE"@, d.image))
            &&& d.work_dir == Some(dir) ==> rows.contains(("WORKDIR"@, dir))
            &&& d.work_dir is None ==> rows.contains(("WORKDIR"@, "-"@))
            &&& rows.contains(("CPU"@, table::shown_figure(e.stats.cpu)))
            &&& rows.contains(("MEM"@, table::shown_figure(e.stats.mem)))
            &&& rows.contains(("UPTIME"@, table::shown_figure(e.stats.uptime)))
        }),
{
    let rows = info::info_rows(e);
    let (p, q) = (number::decimal(e.port as nat), number::decimal(d.container_port as nat));
    let a = e.proto.label() + "/"@;
    let line = rows[0].1;
    lemma_mentions(a, p, " → "@ + q + " (in container)"@);
    assert(line =~= a + p + (" → "@ + q + " (in container)"@));
    lemma_mentions(a + p + " → "@, q, " (in container)"@);
    assert(line =~= a + p + " → "@ + q + " (in container)"@);
    assert(rows[2] == ("CONTAINER"@, d.name));
    assert(rows[3] == ("IMAGE"@, d.image));
    assert(rows[4].0 == "WORKDIR"@);
    assert(rows[5].0 == "CPU"@);
    assert(rows[6].0 == "MEM"@);
    assert(rows[7].0 == "UPTIME"@);
}

/// Whether some listener is on `port`.
pub open spec fn is_taken(es: Seq<EntryView>, port: u32) -> bool {
    exists|j: int| 0 <= j < es.len() && (#[trigger] es[j]).port == port
}

/// A query fails exactly if some requested port is not that of any listener.
pub proof fn law_query_fails_on_missing_ports(es: Seq<EntryView>, ports: Seq<u32>)
    ensures
        info::info_code(es, ports) == 0 || info::info_code(es, ports) == 1,
        info::info_code(es, ports) == 0 <==> forall|i: int|
            0 <= i < ports.len() ==> is_taken(es, #[trigger] ports[i]),
{
    if info::info_code(es, ports) == 0 {
        assert forall|i: int| 0 <= i < ports.len() implies is_taken(es, #[trigger] ports[i]) by {
            assert(info::has_listener(es, ports[i]));
        }
    } else {
        let i = choose|i: int| 0 <= i < ports.len() && !info::has_listener(es, #[trigger] ports[i]);
        assert(!is_taken(es, ports[i]));
    }
}

/// A port that some listener is on is not reported, and one that no listener
/// is on is reported as often as it was requested.
pub proof fn law_missing_ports_are_reported(
    es: Seq<EntryView>,
    before: Seq<u32>,
    port: u32,
    behind: Seq<u32>,
)
    ensures
        ({
            info::missing_texts(es, before.push(port) + behind) == info::missing_texts(es, before)
                + (if is_taken(es, port) {
                Seq::empty()
            } else {
                seq![messages::no_listener_text(port)]
            }) + info::missing_texts(es, behind)
        }),
    decreases behind.len(),
{
    let all = before.push(port) + behind;
    let left = info::missing_texts(es, before);
    if behind.len() == 0 {
        assert(all =~= before.push(port));
        assert(all.drop_last() =~= before);
        assert(info::missing_texts(es, all) =~= left + (if info::has_listener(es, port) {
            Seq::empty()
        } else {
            seq![messages::no_listener_text(port)]
        }) + info::missing_texts(es, behind));
    } else {
        law_missing_ports_are_reported(es, before, port, behind.drop_last());
        assert(all.drop_last() =~= before.push(port) + behind.drop_last());
        assert(info::missing_texts(es, all) =~= left + (if info::has_listener(es, port) {
            Seq::empty()
        } else {
            seq![messages::no_listener_text(port)]
        }) + info::missing_texts(es, behind));
    }
}

// ---------------------------------------------------------------------------
// Killing
// ---------------------------------------------------------------------------

/// Only an explicit yes is one; no answer is none.
pub proof fn law_answers(before: Seq<char>, a: Seq<char>, behind: Seq<char>)
    requires
        text_laws::blank(before),
        text_laws::blank(behind),
        a.len() > 0 ==> !text::is_space(a[0]) && !text::is_space(a.last()),
    ensures
        messages::is_agreement(before + a + behind) == {
            ||| a == seq!['y']
            ||| a == seq!['Y']
            ||| a == seq!['y', 'e', 's']
            ||| a == seq!['Y', 'e', 's']
            ||| a == seq!['Y', 'E', 'S']
        },
{
    reveal_strlit("y");
    reveal_strlit("Y");
    reveal_strlit("yes");
    reveal_strlit("Yes");
    reveal_strlit("YES");
    text_laws::law_trim(before, a, behind);
    assert("y"@ =~= seq!['y']);
    assert("Y"@ =~= seq!['Y']);
    assert("yes"@ =~= seq!['y', 'e', 's']);
    assert("Yes"@ =~= seq!['Y', 'e', 's']);
    assert("YES"@ =~= seq!['Y', 'E', 'S']);
}

/// Whether `s` reads `not permitted` at `i`, in small letters or capitals.
pub open spec fn not_permitted_at(s: Seq<char>, i: int) -> bool {
    &&& 0 <= i && i + 13 <= s.len()
    &&& forall|k: int|
        0 <= k < 13 ==> (#[trigger] s[i + k] == "not permitted"@[k] || k != 3
            && s[i + k] as u32 + 32 == "not permitted"@[k] as u32)
}

/// A failed `kill` is reported with its process and status, its diagnostic
/// where it wrote one, and the advice to use `sudo` on the same port exactly
/// where the diagnostic speaks of a missing permission.
pub proof fn law_failure_is_explained(
    proto: Proto,
    port: u32,
    pid: u32,
    signal: Signal,
    code: i32,
    before: Seq<char>,
    detail: Seq<char>,
    behind: Seq<char>,
)
    requires
        text_laws::blank(before),
        text_laws::blank(behind),
        detail.len() > 0 ==> !text::is_space(detail[0]) && !text::is_space(detail.last()),
    ensures
        ({
            let lines = messages::kill_failure(
                proto,
                port,
                pid,
                signal,
                Some(code),
                before + detail + behind,
            );
            let hint = detail.len() > 0 && exists|i: int| #[trigger] not_permitted_at(detail, i);
            &&& forall|i: int| 0 <= i < lines.len() ==> (#[trigger] lines[i]).err
            &&& lines.len() == if detail.len() == 0 {
                1int
            } else if hint {
                3
            } else {
                2
            }
            &&& mentions(lines[0].text, number::decimal(pid as nat))
            &&& mentions(lines[0].text, number::decimal_int(code as int))
            &&& detail.len() > 0 ==> lines[1].text == "  "@ + detail
            &&& hint ==> mentions(lines[2].text, "sudo lport kill "@ + number::decimal(port as nat))
        }),
{
    let lines = messages::kill_failure(
        proto,
        port,
        pid,
        signal,
        Some(code),
        before + detail + behind,
    );
    text_laws::law_trim(before, detail, behind);
    lemma_not_permitted(detail);
    let d = number::decimal(pid as nat);
    let c = number::decimal_int(code as int);
    let head = "port "@ + messages::place(proto, port) + ": `kill "@ + signal.option() + " "@;
    let line = lines[0].text;
    lemma_mentions(head, d, "` exited with status "@ + c + "."@);
    assert(line =~= head + d + ("` exited with status "@ + c + "."@));
    lemma_mentions(head + d + "` exited with status "@, c, "."@);
    assert(line =~= head + d + "` exited with status "@ + c + "."@);
    let p = number::decimal(port as nat);
    reveal_strlit("hint: try `sudo lport kill ");
    reveal_strlit("sudo lport kill ");
    let hint = "hint: try `sudo lport kill "@ + p + "`"@;
    let start = "hint: try `sudo lport kill "@.take(11);
    assert("hint: try `sudo lport kill "@ =~= start + "sudo lport kill "@);
    lemma_mentions(start, "sudo lport kill "@ + p, "`"@);
    assert(hint =~= start + ("sudo lport kill "@ + p) + "`"@);
}

proof fn lemma_capital(c: char, small: char)
    requires
        'a' <= small <= 'z',
        c as u32 + 32 == small as u32,
    ensures
        'A' <= c <= 'Z',
        (c as u32 + 32) as char == small,
{
    assert(small as u32 as char == small);
}

proof fn lemma_small_letters(k: int)
    requires
        0 <= k < 13,
        k != 3,
    ensures
        'a' <= "not permitted"@[k] <= 'z',
{
    reveal_strlit("not permitted");
    assert(k == 0 || k == 1 || k == 2 || k == 4 || k == 5 || k == 6 || k == 7 || k == 8 || k == 9
        || k == 10 || k == 11 || k == 12);
}

proof fn lemma_not_permitted(detail: Seq<char>)
    ensures
        messages::says_not_permitted(detail) <==> exists|i: int| #[trigger]
            not_permitted_at(detail, i),
{
    reveal_strlit("not permitted");
    let pat = "not permitted"@;
    let low = messages::ascii_lower(detail);
    text::lemma_find_from(low, pat, 0);
    if messages::says_not_permitted(detail) {
        let i = text::find_text(low, pat).unwrap();
        assert forall|k: int| 0 <= k < 13 implies (#[trigger] detail[i + k] == pat[k] || k != 3
            && detail[i + k] as u32 + 32 == pat[k] as u32) by {
            assert(low.subrange(i, i + 13)[k] == pat[k]);
            let c = detail[i + k];
            if 'A' <= c <= 'Z' {
                assert((c as u32 + 32) as char as u32 == c as u32 + 32);
            }
        }
        assert(not_permitted_at(detail, i));
    }
    if exists|i: int| #[trigger] not_permitted_at(detail, i) {
        let i = choose|i: int| #[trigger] not_permitted_at(detail, i);
        assert(low.subrange(i, i + 13) =~= pat) by {
            assert forall|k: int| 0 <= k < 13 implies low.subrange(i, i + 13)[k] == pat[k] by {
                let c = detail[i + k];
                if c != pat[k] {
                    assert(k != 3 && c as u32 + 32 == pat[k] as u32);
                    lemma_small_letters(k);
                    lemma_capital(c, pat[k]);
                }
            }
        }
        assert(text::stands_at(low, pat, i));
    }
}

/// Whether `e` is a process that took one of the ports `freed` again: no
/// container, and none of the processes `handled` before.
pub open spec fn took_again(e: EntryView, freed: Seq<u32>, handled: Seq<u32>) -> bool {
    e.docker is None && e.pid is Some && freed.contains(e.port) && !handled.contains(
        e.pid.unwrap(),
    )
}

/// Every process that took a freed port again is warned of, by its port and
/// its number.
pub proof fn law_every_restart_is_announced(
    again: Seq<EntryView>,
    freed: Seq<u32>,
    handled: Seq<u32>,
    i: int,
)
    requires
        0 <= i < again.len(),
        took_again(again[i], freed, handled),
    ensures
        exists|process: Seq<char>|
            kill::restart_texts(again, freed, handled).contains(
                #[trigger] messages::restarted_text(
                    again[i].proto,
                    again[i].port,
                    again[i].pid.unwrap(),
                    process,
                ),
            ),
    decreases again.len(),
{
    let rest = again.drop_last();
    let e = again[i];
    let all = kill::restart_texts(again, freed, handled);
    let front = kill::restart_texts(rest, freed, handled);
    if i < rest.len() {
        law_every_restart_is_announced(rest, freed, handled, i);
        let process = choose|process: Seq<char>|
            front.contains(
                #[trigger] messages::restarted_text(e.proto, e.port, e.pid.unwrap(), process),
            );
        let t = messages::restarted_text(e.proto, e.port, e.pid.unwrap(), process);
        let m = choose|m: int| 0 <= m < front.len() && front[m] == t;
        assert(all[m] == t);
    } else if exists|k: int|
        0 <= k < rest.len() && kill::same_restart(#[trigger] rest[k], e, freed, handled) {
        let k = choose|k: int|
            0 <= k < rest.len() && kill::same_restart(#[trigger] rest[k], e, freed, handled);
        law_every_restart_is_announced(rest, freed, handled, k);
        let process = choose|process: Seq<char>|
            front.contains(
                #[trigger] messages::restarted_text(e.proto, e.port, e.pid.unwrap(), process),
            );
        assert(all == front);
    } else {
        let t = messages::restarted_text(e.proto, e.port, e.pid.unwrap(), e.process);
        assert(all[all.len() - 1] == t);
    }
}

/// Nothing is warned of but processes that took a freed port again, each of
/// them once for a port and protocol.
pub proof fn law_only_restarts_are_announced(
    again: Seq<EntryView>,
    freed: Seq<u32>,
    handled: Seq<u32>,
    e: EntryView,
)
    ensures
        ({
            let known = exists|k: int|
                0 <= k < again.len() && took_again(#[trigger] again[k], freed, handled)
                    && again[k].proto == e.proto && again[k].port == e.port && again[k].pid
                    == e.pid;
            kill::restart_texts(again.push(e), freed, handled) == if took_again(e, freed, handled)
                && !known {
                kill::restart_texts(again, freed, handled).push(
                    messages::restarted_text(e.proto, e.port, e.pid.unwrap(), e.process),
                )
            } else {
                kill::restart_texts(again, freed, handled)
            }
        }),
        kill::restart_texts(Seq::empty(), freed, handled).len() == 0,
{
    let all = again.push(e);
    assert(all.drop_last() =~= again);
    assert(all.last() == e);
    assert(took_again(e, freed, handled) == kill::restarts(e, freed, handled));
    let known = exists|k: int|
        0 <= k < again.len() && took_again(#[trigger] again[k], freed, handled) && again[k].proto
            == e.proto && again[k].port == e.port && again[k].pid == e.pid;
    let same = exists|k: int|
        0 <= k < again.len() && kill::same_restart(#[trigger] again[k], e, freed, handled);
    if known {
        let k = choose|k: int|
            0 <= k < again.len() && took_again(#[trigger] again[k], freed, handled)
                && again[k].proto == e.proto && again[k].port == e.port && again[k].pid == e.pid;
        assert(kill::same_restart(again[k], e, freed, handled));
    }
    if same {
        let k = choose|k: int|
            0 <= k < again.len() && kill::same_restart(#[trigger] again[k], e, freed, handled);
        assert(took_again(again[k], freed, handled));
    }
}

/// A process that is still there at the end of a wait was given all of its
/// time, to within one sleep.
pub proof fn law_wait_takes_its_time(alive: Seq<bool>, timeout_ms: nat)
    requires
        timeout_ms <= u64::MAX - 100,
        alive.len() > wait::sleeps(timeout_ms),
    ensures
        match wait::wait_result(alive, 0, timeout_ms) {
            Some((gone, looks)) => {
                &&& !gone ==> timeout_ms <= (looks - 1) * 100 < timeout_ms + 100
                &&& gone ==> (looks - 1) * 100 < timeout_ms + 100
            },
            None => false,
        },
{
    wait::law_wait_ends(alive, 0, timeout_ms);
}

/// The output of `ps` on a process tells that it is alive unless there is
/// none, or its state begins with the letter of a zombie.
pub proof fn law_ps_state_is_read(before: Seq<char>, state: Seq<char>, behind: Seq<char>)
    requires
        text_laws::blank(before),
        text_laws::blank(behind),
        state.len() > 0 ==> !text::is_space(state[0]) && !text::is_space(state.last()),
    ensures
        wait::ps_stat_alive(before + state + behind) == (state.len() > 0 && state[0] != 'Z'),
{
    text_laws::law_trim(before, state, behind);
}

// ---------------------------------------------------------------------------
// Commands
// ---------------------------------------------------------------------------

/// A broken `ss` never looks like a machine without listeners: whatever did
/// not start or did not succeed is reported, with what the system or the
/// command said of it. An `lsof` that ran is never reported, because it fails
/// where it finds nothing.
pub proof fn law_broken_commands_are_reported(
    code: Option<i32>,
    out: Seq<u8>,
    err: Seq<u8>,
    message: Seq<char>,
)
    ensures
        ({
            let works = CommandView::Ran { success: true, code, stdout: out, stderr: err };
            let fails = CommandView::Ran { success: false, code, stdout: out, stderr: err };
            let absent = CommandView::NotSpawned { message };
            let detail = text::trim(text::utf8_lossy(err));
            &&& ss::ss_error(works) is None
            &&& ss::ss_error(fails) is Some
            &&& ss::ss_error(absent) is Some
            &&& detail.len() > 0 ==> mentions(ss::ss_error(fails).unwrap(), detail)
            &&& code is Some ==> mentions(
                ss::ss_error(fails).unwrap(),
                number::decimal_int(code.unwrap() as int),
            )
            &&& mentions(ss::ss_error(absent).unwrap(), message)
            &&& lsof::lsof_error(works) is None && lsof::lsof_error(fails) is None
            &&& lsof::lsof_error(absent) is Some
            &&& mentions(lsof::lsof_error(absent).unwrap(), message)
            &&& kill::sent(works) is Sent
            &&& kill::sent(fails) == (EventView::Failed { code, stderr: text::utf8_lossy(err) })
            &&& kill::sent(absent) == (EventView::NotSpawned { message })
        }),
{
    let detail = text::trim(text::utf8_lossy(err));
    lemma_failed_text("ss"@, code, text::utf8_lossy(err));
    lemma_not_run_text("ss"@, message, " Install iproute2 (provides `ss`)."@);
    lemma_not_run_text("lsof"@, message, ""@);
}

proof fn lemma_not_run_text(name: Seq<char>, message: Seq<char>, advice: Seq<char>)
    ensures
        mentions(command::not_run_text(name, message, advice), message),
{
    let head = "error: failed to run `"@ + name + "`: "@;
    lemma_mentions(head, message, "."@);
    lemma_mentions_more(head + message + "."@, message, advice);
}

proof fn lemma_failed_text(name: Seq<char>, code: Option<i32>, stderr: Seq<char>)
    ensures
        text::trim(stderr).len() > 0 ==> mentions(
            command::failed_text(name, code, stderr),
            text::trim(stderr),
        ),
        code is Some ==> mentions(
            command::failed_text(name, code, stderr),
            number::decimal_int(code.unwrap() as int),
        ),
{
    let head = "error: `"@ + name + "` exited with status "@;
    let detail = text::trim(stderr);
    let none = Seq::<char>::empty();
    let c = match code {
        Some(c) => number::decimal_int(c as int),
        None => "?"@,
    };
    let status = head + c + "."@;
    lemma_mentions(head, c, "."@);
    if detail.len() > 0 {
        lemma_mentions_more(status, c, "\n  "@);
        lemma_mentions_more(status + "\n  "@, c, detail);
        lemma_mentions(status + "\n  "@, detail, none);
        assert(status + "\n  "@ + detail + none =~= status + "\n  "@ + detail);
    }
}

/// What `docker ps` printed counts only where it succeeded.
pub proof fn law_docker_counts_where_it_works(
    code: Option<i32>,
    out: Seq<u8>,
    err: Seq<u8>,
    message: Seq<char>,
)
    ensures
        docker::published_by((CommandView::Ran { success: true, code, stdout: out, stderr: err }))
            == docker::published_lines(text::lines(text::utf8_lossy(out))),
        docker::published_by(
            (CommandView::Ran { success: false, code, stdout: out, stderr: err }),
        ).len() == 0,
        docker::published_by((CommandView::NotSpawned { message })).len() == 0,
{
}

/// After a failed `docker stats` exactly those containers are asked for again
/// that still run, unless these are all or none of them.
pub proof fn law_running_containers_are_retried(
    names: Seq<Seq<char>>,
    stats: CommandView,
    out: Seq<u8>,
    code: Option<i32>,
    err: Seq<u8>,
    name: Seq<char>,
)
    ensures
        ({
            let running = CommandView::Ran { success: true, code, stdout: out, stderr: err };
            let lines = text::lines(text::utf8_lossy(out));
            let again = docker::to_retry(names, stats, running);
            let works = stats is Ran && stats->success;
            &&& works ==> again is None
            &&& again is Some ==> (again.unwrap().contains(name) <==> names.contains(name)
                && lines.contains(name)) && 0 < again.unwrap().len() < names.len()
            &&& !works && names.contains(name) && lines.contains(name) && again is None
                ==> docker::names_running(names, lines) == names
        }),
{
    let lines = text::lines(text::utf8_lossy(out));
    let p = |n: Seq<char>| lines.contains(n);
    lemma_filter_texts(names, p, name);
}

proof fn lemma_filter_texts(s: Seq<Seq<char>>, p: spec_fn(Seq<char>) -> bool, x: Seq<char>)
    ensures
        s.filter(p).contains(x) <==> s.contains(x) && p(x),
        s.filter(p).len() <= s.len(),
        s.filter(p).len() == s.len() ==> s.filter(p) == s,
    decreases s.len(),
{
    reveal(Seq::filter);
    if s.len() > 0 {
        let front = s.drop_last();
        let (f, r) = (front.filter(p), s.filter(p));
        lemma_filter_texts(front, p, x);
        if s.contains(x) && p(x) {
            if x == s.last() {
                assert(r[r.len() - 1] == x);
            } else {
                let k = choose|k: int| 0 <= k < s.len() && s[k] == x;
                assert(front[k] == x);
                let m = choose|m: int| 0 <= m < f.len() && f[m] == x;
                assert(r[m] == x);
            }
        }
        if r.contains(x) {
            let m = choose|m: int| 0 <= m < r.len() && r[m] == x;
            if m < f.len() {
                assert(f[m] == x);
                let k = choose|k: int| 0 <= k < front.len() && front[k] == x;
                assert(s[k] == x);
            } else {
                assert(s[s.len() - 1] == x);
            }
        }
        if r.len() == s.len() {
            assert(front.push(s.last()) =~= s);
        }
    }
}

// ---------------------------------------------------------------------------
// What the reports name
// ---------------------------------------------------------------------------

/// A place is named by its port, and a process by its number and command.
pub proof fn law_names(proto: Proto, port: u32, pid: u32, process: Seq<char>)
    ensures
        mentions(messages::place(proto, port), number::decimal(port as nat)),
        mentions(messages::who(pid, process), number::decimal(pid as nat)),
        mentions(messages::who(pid, process), process),
{
    let (p, n) = (number::decimal(port as nat), number::decimal(pid as nat));
    let at = messages::place(proto, port);
    let who = messages::who(pid, process);
    let none = Seq::<char>::empty();
    lemma_mentions(proto.label() + "/"@, p, none);
    assert(at =~= proto.label() + "/"@ + p + none);
    lemma_mentions("pid "@, n, " ("@ + process + ")"@);
    assert(who =~= "pid "@ + n + (" ("@ + process + ")"@));
    lemma_mentions("pid "@ + n + " ("@, process, ")"@);
}

/// A report on a port names it, and so does the advice that it gives.
pub proof fn law_reports_name_the_port(proto: Proto, port: u32)
    ensures
        mentions(messages::no_listener_text(port), number::decimal(port as nat)),
        mentions(messages::pid_unknown_text(proto, port), messages::place(proto, port)),
        mentions(messages::retry_hint_text(port), "lport kill -9 "@ + number::decimal(port as nat)),
{
    let p = number::decimal(port as nat);
    let at = messages::place(proto, port);
    lemma_mentions("port "@, p, ": no listening process found."@);
    let ask = ": PID unknown (insufficient privileges?). Try `sudo lport kill "@;
    lemma_mentions("port "@, at, ask + p + "`."@);
    assert(messages::pid_unknown_text(proto, port) =~= "port "@ + at + (ask + p + "`."@));
    let retry = "hint: retry with `lport kill -9 "@;
    let first = retry.take(18);
    assert(retry =~= first + "lport kill -9 "@) by {
        reveal_strlit("hint: retry with `lport kill -9 ");
        reveal_strlit("lport kill -9 ");
    }
    lemma_mentions(first, "lport kill -9 "@ + p, "`"@);
    assert(messages::retry_hint_text(port) =~= first + ("lport kill -9 "@ + p) + "`"@);
}

/// A container is never signalled: the report on its port names it and the
/// command that stops it.
pub proof fn law_report_names_the_container(proto: Proto, port: u32, name: Seq<char>)
    ensures
        mentions(messages::docker_text(proto, port, name), messages::place(proto, port)),
        mentions(messages::docker_text(proto, port, name), "docker stop "@ + name),
{
    let at = messages::place(proto, port);
    let none = Seq::<char>::empty();
    let owned = ": owned by Docker container '"@;
    let advice = "'. Use: docker stop "@;
    let report = messages::docker_text(proto, port, name);
    let head = "port "@ + at + owned;
    lemma_mentions("port "@, at, owned);
    lemma_mentions_more(head, at, name);
    lemma_mentions_more(head + name, at, advice);
    lemma_mentions_more(head + name + advice, at, name);
    let start = advice.take(8);
    let stop = "docker stop "@;
    assert(advice =~= start + stop) by {
        reveal_strlit("'. Use: docker stop ");
        reveal_strlit("docker stop ");
    }
    lemma_associative(head + name, start, stop);
    lemma_associative(head + name + start, stop, name);
    lemma_mentions(head + name + start, stop + name, none);
    assert(report + none =~= report);
}

/// The question before a signal and the reports after it name the process,
/// the port and the signal.
pub proof fn law_reports_name_the_process(
    proto: Proto,
    port: u32,
    pid: u32,
    process: Seq<char>,
    cwd: Seq<char>,
    signal: Signal,
)
    ensures
        ({
            let killed = messages::killed_text(proto, port, pid, process, signal);
            let question = messages::confirm_text(proto, port, pid, process, cwd, signal);
            &&& mentions(killed, messages::who(pid, process))
            &&& mentions(killed, messages::place(proto, port))
            &&& mentions(killed, signal.label())
            &&& mentions(question, messages::who(pid, process))
            &&& mentions(question, messages::place(proto, port))
            &&& mentions(question, signal.label())
            &&& cwd.len() > 0 ==> mentions(question, cwd)
            &&& mentions(messages::skipped_text(pid, process), messages::who(pid, process))
        }),
{
    let at = messages::place(proto, port);
    let who = messages::who(pid, process);
    lemma_mentions("skipped "@, who, "."@);
    let killed = messages::killed_text(proto, port, pid, process, signal);
    let end = " ["@ + signal.label() + "]"@;
    lemma_mentions("killed "@, who, " on "@ + at + end);
    assert(killed =~= "killed "@ + who + (" on "@ + at + end));
    lemma_mentions("killed "@ + who + " on "@, at, end);
    assert(killed =~= "killed "@ + who + " on "@ + at + end);
    lemma_mentions("killed "@ + who + " on "@ + at + " ["@, signal.label(), "]"@);
    lemma_question(proto, port, pid, process, cwd, signal);
}

proof fn lemma_question(
    proto: Proto,
    port: u32,
    pid: u32,
    process: Seq<char>,
    cwd: Seq<char>,
    signal: Signal,
)
    ensures
        ({
            let question = messages::confirm_text(proto, port, pid, process, cwd, signal);
            &&& mentions(question, messages::who(pid, process))
            &&& mentions(question, messages::place(proto, port))
            &&& mentions(question, signal.label())
            &&& cwd.len() > 0 ==> mentions(question, cwd)
        }),
{
    let at = messages::place(proto, port);
    let who = messages::who(pid, process);
    let question = messages::confirm_text(proto, port, pid, process, cwd, signal);
    let dir = if cwd.len() == 0 {
        "-"@
    } else {
        cwd
    };
    let label = signal.label();
    let head = "Kill "@ + who + " on "@;
    let tail = " [cwd: "@ + dir + "] with "@ + label + "? [y/N] "@;
    assert(question == head + at + " [cwd: "@ + dir + "] with "@ + label + "? [y/N] "@);
    lemma_mentions(head + at + " [cwd: "@ + dir + "] with "@, label, "? [y/N] "@);
    lemma_mentions(head + at + " [cwd: "@, dir, "] with "@ + label + "? [y/N] "@);
    assert(question =~= head + at + " [cwd: "@ + dir + ("] with "@ + label + "? [y/N] "@));
    lemma_mentions(head, at, tail);
    assert(question =~= head + at + tail);
    lemma_mentions("Kill "@, who, " on "@ + at + tail);
    assert(question =~= "Kill "@ + who + (" on "@ + at + tail));
}

/// The warning of a restart names the port and the new process.
pub proof fn law_warning_names_the_process(
    proto: Proto,
    port: u32,
    pid: u32,
    process: Seq<char>,
)
    ensures
        ({
            let warning = messages::restarted_text(proto, port, pid, process);
            &&& mentions(warning, messages::place(proto, port))
            &&& mentions(warning, number::decimal(pid as nat))
            &&& mentions(warning, process)
        }),
{
    let (p, n) = (number::decimal(port as nat), number::decimal(pid as nat));
    let at = messages::place(proto, port);
    let warning = messages::restarted_text(proto, port, pid, process);
    let likely =
        ") \u{2014} likely restarted by a supervisor (dev server, systemd). Inspect with `lport info "@;
    let end = likely + p + "`."@;
    let again = " is listening again (pid "@;
    let head = "warning: port "@;
    assert(warning =~= head + at + again + n + ", "@ + process + end);
    lemma_mentions(head + at + again + n + ", "@, process, end);
    lemma_mentions(head + at + again, n, ", "@ + process + end);
    assert(warning =~= head + at + again + n + (", "@ + process + end));
    lemma_mentions(head, at, again + n + ", "@ + process + end);
    assert(warning =~= head + at + (again + n + ", "@ + process + end));
}

/// What is said of a process that could not be freed of its port names the
/// process and the port, and how long it was waited for.
pub proof fn law_failures_name_the_process(
    proto: Proto,
    port: u32,
    pid: u32,
    process: Seq<char>,
    seconds: nat,
    message: Seq<char>,
)
    ensures
        ({
            let at = messages::place(proto, port);
            let who = messages::who(pid, process);
            let term = messages::survived_term_text(proto, port, pid, process, seconds);
            let kill = messages::survived_kill_text(proto, port, pid, process, seconds);
            let refused = messages::refused_text(proto, port, pid, process);
            let known = messages::already_handled_text(proto, port, pid);
            let absent = messages::not_spawned_text(proto, port, message);
            &&& mentions(term, at) && mentions(term, who) && mentions(
                term,
                number::decimal(seconds) + "s after SIGTERM."@,
            )
            &&& mentions(kill, at) && mentions(kill, who) && mentions(
                kill,
                number::decimal(seconds) + "s after SIGKILL (uninterruptible I/O?)."@,
            )
            &&& mentions(refused, at) && mentions(refused, who)
            &&& mentions(known, at) && mentions(known, number::decimal(pid as nat))
            &&& mentions(messages::declined_text(pid, process), who)
            &&& mentions(absent, at) && mentions(absent, message)
        }),
{
    let at = messages::place(proto, port);
    let who = messages::who(pid, process);
    lemma_still_alive(at, who, number::decimal(seconds), "s after SIGTERM."@);
    lemma_still_alive(
        at,
        who,
        number::decimal(seconds),
        "s after SIGKILL (uninterruptible I/O?)."@,
    );
    let port_at = "port "@ + at;
    let refusing = ": refusing to kill "@;
    let why = " without confirmation (no TTY)."@;
    lemma_mentions("port "@, at, refusing);
    lemma_mentions_more(port_at + refusing, at, who);
    lemma_mentions_more(port_at + refusing + who, at, why);
    lemma_mentions(port_at + refusing, who, why);
    let n = number::decimal(pid as nat);
    let also = " already handled (also listens on "@;
    lemma_mentions("pid "@, n, also);
    lemma_mentions_more("pid "@ + n + also, n, at);
    lemma_mentions_more("pid "@ + n + also + at, n, ")."@);
    lemma_mentions("pid "@ + n + also, at, ")."@);
    lemma_mentions("skipped escalation for "@, who, "."@);
    let spawn = ": failed to spawn `kill`: "@;
    lemma_mentions("port "@, at, spawn);
    lemma_mentions_more(port_at + spawn, at, message);
    lemma_mentions_more(port_at + spawn + message, at, "."@);
    lemma_mentions(port_at + spawn, message, "."@);
}

proof fn lemma_still_alive(at: Seq<char>, who: Seq<char>, d: Seq<char>, end: Seq<char>)
    ensures
        ({
            let s = "port "@ + at + ": "@ + who + " still alive "@ + d + end;
            mentions(s, at) && mentions(s, who) && mentions(s, d + end)
        }),
{
    let none = Seq::<char>::empty();
    let a = "port "@ + at + ": "@;
    let b = a + who + " still alive "@;
    lemma_mentions("port "@, at, ": "@);
    lemma_mentions_more(a, at, who);
    lemma_mentions_more(a + who, at, " still alive "@);
    lemma_mentions_more(b, at, d);
    lemma_mentions_more(b + d, at, end);
    lemma_mentions(a, who, " still alive "@);
    lemma_mentions_more(b, who, d);
    lemma_mentions_more(b + d, who, end);
    lemma_associative(b, d, end);
    lemma_mentions(b, d + end, none);
    assert(b + (d + end) + none =~= b + (d + end));
}

/// What is wrong with a command line is named.
pub proof fn law_errors_name_the_argument(arg: Seq<char>)
    ensures
        mentions(args::error_text((ArgErrorView::UnknownArgument { arg })), "'"@ + arg + "'"@),
        mentions(args::error_text((ArgErrorView::InvalidPort { arg })), "'"@ + arg + "'"@),
        mentions(args::error_text(ArgErrorView::InfoWithoutPort), "lport info"@),
        mentions(args::error_text(ArgErrorView::KillWithoutPort), "lport kill"@),
{
    reveal_strlit("'");
    reveal_strlit("error: unknown argument '");
    reveal_strlit("error: invalid port '");
    lemma_quoted_argument("error: unknown argument '"@, arg);
    lemma_quoted_argument("error: invalid port '"@, arg);
    assert(mentions("error: 'lport info' requires at least one port number."@, "lport info"@)) by {
        reveal_strlit("error: 'lport info' requires at least one port number.");
        reveal_strlit("lport info");
        let s = "error: 'lport info' requires at least one port number."@;
        assert(s.subrange(8, 18) =~= "lport info"@);
        assert(text::stands_at(s, "lport info"@, 8));
    }
    assert(mentions("error: 'lport kill' requires at least one port number."@, "lport kill"@)) by {
        reveal_strlit("error: 'lport kill' requires at least one port number.");
        reveal_strlit("lport kill");
        let s = "error: 'lport kill' requires at least one port number."@;
        assert(s.subrange(8, 18) =~= "lport kill"@);
        assert(text::stands_at(s, "lport kill"@, 8));
    }
}

proof fn lemma_quoted_argument(head: Seq<char>, arg: Seq<char>)
    requires
        head.len() > 0,
        head.last() == '\'',
        "'"@.len() == 1 && "'"@[0] == '\'',
    ensures
        mentions(head + arg + "'"@, "'"@ + arg + "'"@),
{
    let front = head.drop_last();
    let none = Seq::<char>::empty();
    assert(head =~= front + "'"@);
    let q = "'"@;
    lemma_mentions(front, q + arg + q, none);
    lemma_associative(front, q, arg);
    lemma_associative(front, q + arg, q);
    assert(front + (q + arg + q) + none =~= front + (q + arg + q));
}

/// The notice of an update names both versions, in colour or not; where it
/// asks nothing it says how to install the new one.
pub proof fn law_notice_names_the_versions(
    current: Seq<char>,
    latest: Seq<char>,
    colour: bool,
    asks: bool,
)
    ensures
        ({
            let notice = update::notice_text(current, latest, colour, asks);
            &&& mentions(notice, current + " → "@ + latest)
            &&& asks ==> mentions(notice, "install now?"@)
            &&& !asks ==> mentions(notice, update::repository())
        }),
{
    let head = update::mark(colour) + "  update available: lport "@;
    let none = Seq::<char>::empty();
    let change = current + " → "@ + latest;
    let line = update::available_text(current, latest, colour);
    lemma_associative(head, current, " → "@);
    lemma_associative(head, current + " → "@, latest);
    assert(line == head + change);
    lemma_associative("\n"@, head, change);
    let start = "\n"@ + line;
    lemma_mentions("\n"@ + head, change, none);
    assert(start + none =~= start);
    if asks {
        let bold = "\x1b[1m[y/N]\x1b[0m"@;
        let ask = "   install now? "@;
        lemma_mentions_more(start, change, ask);
        lemma_mentions_more(start + ask, change, bold);
        lemma_mentions_more(start + ask + bold, change, " "@);
        assert(mentions(ask, "install now?"@)) by {
            reveal_strlit("   install now? ");
            reveal_strlit("install now?");
            assert(ask.subrange(3, 15) =~= "install now?"@);
            assert(text::stands_at(ask, "install now?"@, 3));
        }
        lemma_mentions_behind(start, ask, "install now?"@);
        lemma_mentions_more(start + ask, "install now?"@, bold);
        lemma_mentions_more(start + ask + bold, "install now?"@, " "@);
    } else {
        let how = "\n   install: cargo install --git "@;
        let repo = update::repository();
        lemma_mentions_more(start, change, how);
        lemma_mentions_more(start + how, change, repo);
        lemma_mentions_more(start + how + repo, change, " --force\n"@);
        lemma_mentions(start + how, repo, " --force\n"@);
    }
}

/// What stands in a text still does when something is put before it.
proof fn lemma_mentions_behind(before: Seq<char>, s: Seq<char>, part: Seq<char>)
    requires
        mentions(s, part),
    ensures
        mentions(before + s, part),
{
    let i = choose|i: int| #[trigger] text::stands_at(s, part, i);
    let t = before + s;
    let n = before.len();
    assert(t.subrange(n + i, n + i + part.len()) =~= s.subrange(i, i + part.len()));
    assert(text::stands_at(t, part, n + i));
}

/// The script that refreshes the cache makes its directory and writes to its
/// file, both quoted for the shell.
pub proof fn law_script_names_the_cache(dir: Seq<char>, file: Seq<char>)
    ensures
        mentions(update::script_text(dir, file), update::quoted(dir)),
        mentions(update::script_text(dir, file), update::quoted(file)),
{
    let (d, f) = (update::quoted(dir), update::quoted(file));
    let head =
        "v=$(curl -fsSL --max-time 5 https://raw.githubusercontent.com/Bae-ChangHyun/lport/main/Cargo.toml 2>/dev/null | awk -F'\"' '/^version[[:space:]]*=/ {print $2; exit}'); if [ -n \"$v\" ]; then mkdir -p '"@;
    let mid = "' && printf '%s\\n%s\\n' \"$(date +%s)\" \"$v\" > '"@;
    let end = "'; fi"@;
    lemma_mentions(head, d, mid);
    lemma_mentions_more(head + d + mid, d, f);
    lemma_mentions_more(head + d + mid + f, d, end);
    lemma_mentions(head + d + mid, f, end);
}

/// A failed installation is reported with its status, or with what kept it
/// from starting.
pub proof fn law_failed_installation_is_explained(code: i32, message: String)
    ensures
        mentions(
            update::install_end_text((InstallOutcome::Failed { code: Some(code) })),
            number::decimal_int(code as int),
        ),
        mentions(
            update::install_end_text((InstallOutcome::NotSpawned { message })),
            message@,
        ),
{
    lemma_mentions(
        "==> cargo install exited with status "@,
        number::decimal_int(code as int),
        ".\n"@,
    );
    lemma_mentions(
        "==> failed to spawn cargo: "@,
        message@,
        ".\n    is the Rust toolchain installed and on PATH?\n"@,
    );
}

/// The empty dashboard tells how to see more: everything where user servers
/// were asked for, and with more rights where everything was.
pub proof fn law_empty_dashboard_gives_advice()
    ensures
        mentions(table::empty_note_text(false), "lport --dev"@),
        mentions(table::empty_note_text(true), "sudo"@),
{
    assert(mentions(table::empty_note_text(false), "lport --dev"@)) by {
        reveal_strlit("\n(no user servers to display — run `lport --dev` to see everything)");
        reveal_strlit("lport --dev");
        let s = table::empty_note_text(false);
        assert(s.subrange(36, 47) =~= "lport --dev"@);
        assert(text::stands_at(s, "lport --dev"@, 36));
    }
    assert(mentions(table::empty_note_text(true), "sudo"@)) by {
        reveal_strlit("\n(no listening ports found — try running with sudo)");
        reveal_strlit("sudo");
        let s = table::empty_note_text(true);
        assert(s.subrange(46, 50) =~= "sudo"@);
        assert(text::stands_at(s, "sudo"@, 46));
    }
}

/// What a command wrote is what it wrote to its output, and for some of them
/// only where it succeeded; one that did not start wrote nothing.
pub proof fn law_output_of_commands(
    code: Option<i32>,
    out: Seq<u8>,
    err: Seq<u8>,
    message: Seq<char>,
    success: bool,
)
    ensures
        ({
            let ran = CommandView::Ran { success, code, stdout: out, stderr: err };
            let absent = CommandView::NotSpawned { message };
            &&& command::written(ran) == text::utf8_lossy(out)
            &&& command::written(absent).len() == 0
            &&& command::written_on_success(ran) == if success {
                Some(text::utf8_lossy(out))
            } else {
                None
            }
            &&& command::written_on_success(absent) is None
        }),
{
}

/// The signals go by their names, and `kill` is told them by these.
pub proof fn law_signals_have_their_names(signal: Signal)
    ensures
        signal.label() == "SIG"@ + (if signal is Kill {
            "KILL"@
        } else {
            "TERM"@
        }),
        signal.option() == "-"@ + (if signal is Kill {
            "KILL"@
        } else {
            "TERM"@
        }),
{
    reveal_strlit("SIG");
    reveal_strlit("-");
    reveal_strlit("TERM");
    reveal_strlit("KILL");
    reveal_strlit("SIGTERM");
    reveal_strlit("SIGKILL");
    reveal_strlit("-TERM");
    reveal_strlit("-KILL");
    assert("SIGTERM"@ =~= "SIG"@ + "TERM"@);
    assert("SIGKILL"@ =~= "SIG"@ + "KILL"@);
    assert("-TERM"@ =~= "-"@ + "TERM"@);
    assert("-KILL"@ =~= "-"@ + "KILL"@);
}

/// One look at a process: gone ends the wait, alive goes on with it while
/// there is time, a tenth of a second at a time.
pub proof fn law_looks(waited_ms: nat, timeout_ms: nat)
    requires
        timeout_ms <= u64::MAX - 100,
    ensures
        wait::next_look(waited_ms, timeout_ms, false) == WaitStep::Gone,
        waited_ms < timeout_ms ==> wait::next_look(waited_ms, timeout_ms, true) == (
        WaitStep::Sleep { waited_ms: (waited_ms + 100) as u64 }),
        waited_ms >= timeout_ms ==> wait::next_look(waited_ms, timeout_ms, true)
            == WaitStep::StillAlive,
{
}

} // verus!
