//! Everything that `lport kill` prints.

use vstd::prelude::*;
use crate::model::Proto;
use crate::number;
use crate::number::{push_decimal, push_decimal_int};
use crate::text;
use crate::text::{chars_of, position_of_text, spells, string_of, trimmed};

verus! {

/// The signals that are sent.
#[derive(Clone, Copy, Debug, PartialEq, Eq, Structural)]
pub enum Signal {
    Term,
    Kill,
}

impl Signal {
    /// The name of the signal in messages.
    pub open spec fn label(self) -> Seq<char> {
        match self {
            Signal::Term => "SIGTERM"@,
            Signal::Kill => "SIGKILL"@,
        }
    }

    /// The option that makes `kill` send the signal.
    pub open spec fn option(self) -> Seq<char> {
        match self {
            Signal::Term => "-TERM"@,
            Signal::Kill => "-KILL"@,
        }
    }

    /// The name of the signal.
    pub fn name(self) -> (r: &'static str)
        ensures
            r@ == self.label(),
    {
        match self {
            Signal::Term => "SIGTERM",
            Signal::Kill => "SIGKILL",
        }
    }

    /// The option that makes `kill` send the signal.
    pub fn flag(self) -> (r: &'static str)
        ensures
            r@ == self.option(),
    {
        match self {
            Signal::Term => "-TERM",
            Signal::Kill => "-KILL",
        }
    }
}

/// A line of output and where it goes.
#[derive(Debug, PartialEq, Eq)]
pub struct Line {
    /// Whether the line goes to standard error.
    pub err: bool,
    pub text: String,
}

/// The view of `Line`.
#[verifier::ext_equal]
pub struct LineView {
    pub err: bool,
    pub text: Seq<char>,
}

impl View for Line {
    type V = LineView;

    open spec fn view(&self) -> LineView {
        LineView { err: self.err, text: self.text@ }
    }
}

/// The views of a list of lines.
pub open spec fn line_views(v: Seq<Line>) -> Seq<LineView> {
    v.map_values(|l: Line| l@)
}

/// `tcp/3000`
pub open spec fn place(proto: Proto, port: u32) -> Seq<char> {
    proto.label() + "/"@ + number::decimal(port as nat)
}

/// `pid 7 (node)`
pub open spec fn who(pid: u32, process: Seq<char>) -> Seq<char> {
    "pid "@ + number::decimal(pid as nat) + " ("@ + process + ")"@
}

/// The report of a port that nothing listens on.
pub open spec fn no_listener_text(port: u32) -> Seq<char> {
    "port "@ + number::decimal(port as nat) + ": no listening process found."@
}

/// The report of a port that belongs to a container.
pub open spec fn docker_text(proto: Proto, port: u32, name: Seq<char>) -> Seq<char> {
    "port "@ + place(proto, port) + ": owned by Docker container '"@ + name
        + "'. Use: docker stop "@ + name
}

/// The report of a listener whose process cannot be seen.
pub open spec fn pid_unknown_text(proto: Proto, port: u32) -> Seq<char> {
    "port "@ + place(proto, port)
        + ": PID unknown (insufficient privileges?). Try `sudo lport kill "@ + number::decimal(port as nat)
        + "`."@
}

/// The report of a process that an earlier visit dealt with.
pub open spec fn already_handled_text(proto: Proto, port: u32, pid: u32) -> Seq<char> {
    "pid "@ + number::decimal(pid as nat) + " already handled (also listens on "@ + place(proto, port)
        + ")."@
}

/// The report of a process that the user chose to leave alone.
pub open spec fn skipped_text(pid: u32, process: Seq<char>) -> Seq<char> {
    "skipped "@ + who(pid, process) + "."@
}

/// The report of a process that nobody could be asked about.
pub open spec fn refused_text(proto: Proto, port: u32, pid: u32, process: Seq<char>) -> Seq<char> {
    "port "@ + place(proto, port) + ": refusing to kill "@ + who(pid, process)
        + " without confirmation (no TTY)."@
}

/// The report of a process that is gone.
pub open spec fn killed_text(
    proto: Proto,
    port: u32,
    pid: u32,
    process: Seq<char>,
    signal: Signal,
) -> Seq<char> {
    "killed "@ + who(pid, process) + " on "@ + place(proto, port) + " ["@ + signal.label() + "]"@
}

/// The report of a process that outlived SIGTERM.
pub open spec fn survived_term_text(
    proto: Proto,
    port: u32,
    pid: u32,
    process: Seq<char>,
    seconds: nat,
) -> Seq<char> {
    "port "@ + place(proto, port) + ": "@ + who(pid, process) + " still alive "@ + number::decimal(seconds)
        + "s after SIGTERM."@
}

/// The report of a process that outlived SIGKILL.
pub open spec fn survived_kill_text(
    proto: Proto,
    port: u32,
    pid: u32,
    process: Seq<char>,
    seconds: nat,
) -> Seq<char> {
    "port "@ + place(proto, port) + ": "@ + who(pid, process) + " still alive "@ + number::decimal(seconds)
        + "s after SIGKILL (uninterruptible I/O?)."@
}

/// What to try next on a process that outlived SIGTERM.
pub open spec fn retry_hint_text(port: u32) -> Seq<char> {
    "hint: retry with `lport kill -9 "@ + number::decimal(port as nat) + "`"@
}

/// The report of an escalation that the user turned down.
pub open spec fn declined_text(pid: u32, process: Seq<char>) -> Seq<char> {
    "skipped escalation for "@ + who(pid, process) + "."@
}

/// The report of a `kill` command that could not be started.
pub open spec fn not_spawned_text(proto: Proto, port: u32, message: Seq<char>) -> Seq<char> {
    "port "@ + place(proto, port) + ": failed to spawn `kill`: "@ + message + "."@
}

/// The question asked before a process is signalled.
pub open spec fn confirm_text(
    proto: Proto,
    port: u32,
    pid: u32,
    process: Seq<char>,
    cwd: Seq<char>,
    signal: Signal,
) -> Seq<char> {
    "Kill "@ + who(pid, process) + " on "@ + place(proto, port) + " [cwd: "@ + (if cwd.len() == 0 {
        "-"@
    } else {
        cwd
    }) + "] with "@ + signal.label() + "? [y/N] "@
}

/// The question asked before an escalation.
pub open spec fn escalate_text() -> Seq<char> {
    "Escalate to SIGKILL? [y/N] "@
}

/// The warning on a port that is taken again.
pub open spec fn restarted_text(
    proto: Proto,
    port: u32,
    pid: u32,
    process: Seq<char>,
) -> Seq<char> {
    "warning: port "@ + place(proto, port) + " is listening again (pid "@ + number::decimal(
        pid as nat,
    ) + ", "@ + process
        + ") \u{2014} likely restarted by a supervisor (dev server, systemd). Inspect with `lport info "@
        + number::decimal(port as nat) + "`."@
}

/// The first line on a `kill` command that failed.
pub open spec fn kill_status_text(
    proto: Proto,
    port: u32,
    pid: u32,
    signal: Signal,
    code: Option<i32>,
) -> Seq<char> {
    "port "@ + place(proto, port) + ": `kill "@ + signal.option() + " "@ + number::decimal(pid as nat)
        + "` exited with status "@ + (match code {
        Some(c) => number::decimal_int(c as int),
        None => "?"@,
    }) + "."@
}

/// `s` with its ASCII capitals made small.
pub open spec fn ascii_lower(s: Seq<char>) -> Seq<char> {
    s.map_values(
        |c: char|
            if 'A' <= c <= 'Z' {
                (c as u32 + 32) as char
            } else {
                c
            },
    )
}

/// Whether a diagnostic of `kill` speaks of a missing permission.
pub open spec fn says_not_permitted(detail: Seq<char>) -> bool {
    text::find_text(ascii_lower(detail), "not permitted"@) is Some
}

/// What is printed on a `kill` command that failed: its status, then its own
/// diagnostic, then a hint where a permission was missing.
pub open spec fn kill_failure(
    proto: Proto,
    port: u32,
    pid: u32,
    signal: Signal,
    code: Option<i32>,
    stderr: Seq<char>,
) -> Seq<LineView> {
    let status = LineView { err: true, text: kill_status_text(proto, port, pid, signal, code) };
    let detail = text::trim(stderr);
    if detail.len() == 0 {
        seq![status]
    } else if says_not_permitted(detail) {
        seq![
            status,
            LineView { err: true, text: "  "@ + detail },
            LineView {
                err: true,
                text: "hint: try `sudo lport kill "@ + number::decimal(port as nat) + "`"@,
            },
        ]
    } else {
        seq![status, LineView { err: true, text: "  "@ + detail }]
    }
}


// ---------------------------------------------------------------------------
// Writing the messages
// ---------------------------------------------------------------------------

/// A copy of a piece of text that can be written on.
fn begin(text: &str) -> (r: String)
    ensures
        r@ == text@,
{
    text.to_owned()
}

/// Writes `tcp/3000` behind `s`.
fn push_place(s: &mut String, proto: Proto, port: u32)
    ensures
        final(s)@ == old(s)@ + place(proto, port),
{
    s.append(proto.name());
    s.append("/");
    push_decimal(s, port as u64);
    assert(s@ =~= old(s)@ + place(proto, port));
}

/// Writes `pid 7 (node)` behind `s`.
fn push_who(s: &mut String, pid: u32, process: &str)
    ensures
        final(s)@ == old(s)@ + who(pid, process@),
{
    s.append("pid ");
    push_decimal(s, pid as u64);
    s.append(" (");
    s.append(process);
    s.append(")");
    assert(s@ =~= old(s)@ + who(pid, process@));
}

/// The report of a port that nothing listens on.
pub fn no_listener(port: u32) -> (r: String)
    ensures
        r@ == no_listener_text(port),
{
    let mut s = begin("port ");
    push_decimal(&mut s, port as u64);
    s.append(": no listening process found.");
    s
}

/// The report of a port that belongs to a container.
pub fn docker_owned(proto: Proto, port: u32, name: &str) -> (r: String)
    ensures
        r@ == docker_text(proto, port, name@),
{
    let mut s = begin("port ");
    push_place(&mut s, proto, port);
    s.append(": owned by Docker container '");
    s.append(name);
    s.append("'. Use: docker stop ");
    s.append(name);
    s
}

/// The report of a listener whose process cannot be seen.
pub fn pid_unknown(proto: Proto, port: u32) -> (r: String)
    ensures
        r@ == pid_unknown_text(proto, port),
{
    let mut s = begin("port ");
    push_place(&mut s, proto, port);
    s.append(": PID unknown (insufficient privileges?). Try `sudo lport kill ");
    push_decimal(&mut s, port as u64);
    s.append("`.");
    s
}

/// The report of a process that an earlier visit dealt with.
pub fn already_handled(proto: Proto, port: u32, pid: u32) -> (r: String)
    ensures
        r@ == already_handled_text(proto, port, pid),
{
    let mut s = begin("pid ");
    push_decimal(&mut s, pid as u64);
    s.append(" already handled (also listens on ");
    push_place(&mut s, proto, port);
    s.append(").");
    s
}

/// The report of a process that the user chose to leave alone.
pub fn skipped(pid: u32, process: &str) -> (r: String)
    ensures
        r@ == skipped_text(pid, process@),
{
    let mut s = begin("skipped ");
    push_who(&mut s, pid, process);
    s.append(".");
    s
}

/// The report of a process that nobody could be asked about.
pub fn refused(proto: Proto, port: u32, pid: u32, process: &str) -> (r: String)
    ensures
        r@ == refused_text(proto, port, pid, process@),
{
    let mut s = begin("port ");
    push_place(&mut s, proto, port);
    s.append(": refusing to kill ");
    push_who(&mut s, pid, process);
    s.append(" without confirmation (no TTY).");
    s
}

/// The report of a process that is gone.
pub fn killed(proto: Proto, port: u32, pid: u32, process: &str, signal: Signal) -> (r: String)
    ensures
        r@ == killed_text(proto, port, pid, process@, signal),
{
    let mut s = begin("killed ");
    push_who(&mut s, pid, process);
    s.append(" on ");
    push_place(&mut s, proto, port);
    s.append(" [");
    s.append(signal.name());
    s.append("]");
    s
}

/// The report of a process that outlived SIGTERM.
pub fn survived_term(proto: Proto, port: u32, pid: u32, process: &str, seconds: u64) -> (r: String)
    ensures
        r@ == survived_term_text(proto, port, pid, process@, seconds as nat),
{
    let mut s = begin("port ");
    push_place(&mut s, proto, port);
    s.append(": ");
    push_who(&mut s, pid, process);
    s.append(" still alive ");
    push_decimal(&mut s, seconds);
    s.append("s after SIGTERM.");
    s
}

/// The report of a process that outlived SIGKILL.
pub fn survived_kill(proto: Proto, port: u32, pid: u32, process: &str, seconds: u64) -> (r: String)
    ensures
        r@ == survived_kill_text(proto, port, pid, process@, seconds as nat),
{
    let mut s = begin("port ");
    push_place(&mut s, proto, port);
    s.append(": ");
    push_who(&mut s, pid, process);
    s.append(" still alive ");
    push_decimal(&mut s, seconds);
    s.append("s after SIGKILL (uninterruptible I/O?).");
    s
}

/// What to try next on a process that outlived SIGTERM.
pub fn retry_hint(port: u32) -> (r: String)
    ensures
        r@ == retry_hint_text(port),
{
    let mut s = begin("hint: retry with `lport kill -9 ");
    push_decimal(&mut s, port as u64);
    s.append("`");
    s
}

/// The report of an escalation that the user turned down.
pub fn declined(pid: u32, process: &str) -> (r: String)
    ensures
        r@ == declined_text(pid, process@),
{
    let mut s = begin("skipped escalation for ");
    push_who(&mut s, pid, process);
    s.append(".");
    s
}

/// The report of a `kill` command that could not be started.
pub fn not_spawned(proto: Proto, port: u32, message: &str) -> (r: String)
    ensures
        r@ == not_spawned_text(proto, port, message@),
{
    let mut s = begin("port ");
    push_place(&mut s, proto, port);
    s.append(": failed to spawn `kill`: ");
    s.append(message);
    s.append(".");
    s
}

/// The question asked before a process is signalled.
pub fn confirm(
    proto: Proto,
    port: u32,
    pid: u32,
    process: &str,
    cwd: &str,
    signal: Signal,
) -> (r: String)
    ensures
        r@ == confirm_text(proto, port, pid, process@, cwd@, signal),
{
    let mut s = begin("Kill ");
    push_who(&mut s, pid, process);
    s.append(" on ");
    push_place(&mut s, proto, port);
    s.append(" [cwd: ");
    if cwd.is_empty() {
        s.append("-");
    } else {
        s.append(cwd);
    }
    s.append("] with ");
    s.append(signal.name());
    s.append("? [y/N] ");
    s
}

/// The question asked before an escalation.
pub fn escalate() -> (r: String)
    ensures
        r@ == escalate_text(),
{
    begin("Escalate to SIGKILL? [y/N] ")
}

/// The warning on a port that is taken again.
pub fn restarted(proto: Proto, port: u32, pid: u32, process: &str) -> (r: String)
    ensures
        r@ == restarted_text(proto, port, pid, process@),
{
    let mut s = begin("warning: port ");
    push_place(&mut s, proto, port);
    s.append(" is listening again (pid ");
    push_decimal(&mut s, pid as u64);
    s.append(", ");
    s.append(process);
    s.append(
        ") \u{2014} likely restarted by a supervisor (dev server, systemd). Inspect with `lport info ",
    );
    push_decimal(&mut s, port as u64);
    s.append("`.");
    s
}

/// `s` with its ASCII capitals made small.
pub fn to_ascii_lower(s: &[char]) -> (r: Vec<char>)
    ensures
        r@ == ascii_lower(s@),
{
    let mut out: Vec<char> = Vec::new();
    let mut i: usize = 0;
    while i < s.len()
        invariant
            i <= s@.len(),
            out@ =~= ascii_lower(s@).take(i as int),
        decreases s@.len() - i,
    {
        let c = s[i];
        if 'A' <= c && c <= 'Z' {
            let low: u8 = c as u8 + 32;
            out.push(low as char);
        } else {
            out.push(c);
        }
        i += 1;
    }
    assert(ascii_lower(s@).take(i as int) =~= ascii_lower(s@));
    out
}

/// What is printed on a `kill` command that failed.
pub fn kill_failure_lines(
    proto: Proto,
    port: u32,
    pid: u32,
    signal: Signal,
    code: Option<i32>,
    stderr: &str,
) -> (r: Vec<Line>)
    ensures
        line_views(r@) == kill_failure(proto, port, pid, signal, code, stderr@),
{
    let mut s = begin("port ");
    push_place(&mut s, proto, port);
    s.append(": `kill ");
    s.append(signal.flag());
    s.append(" ");
    push_decimal(&mut s, pid as u64);
    s.append("` exited with status ");
    match code {
        Some(c) => {
            push_decimal_int(&mut s, c);
        },
        None => {
            s.append("?");
        },
    }
    s.append(".");
    let mut out: Vec<Line> = Vec::new();
    out.push(Line { err: true, text: s });
    let raw = chars_of(stderr);
    let detail = trimmed(raw.as_slice());
    if detail.len() > 0 {
        let mut d = begin("  ");
        let t = string_of(detail);
        d.append(t.as_str());
        out.push(Line { err: true, text: d });
        let low = to_ascii_lower(detail);
        if position_of_text(low.as_slice(), "not permitted").is_some() {
            let mut h = begin("hint: try `sudo lport kill ");
            push_decimal(&mut h, port as u64);
            h.append("`");
            out.push(Line { err: true, text: h });
        }
    }
    assert(line_views(out@) =~= kill_failure(proto, port, pid, signal, code, stderr@));
    out
}

/// Whether the answer to a question is an explicit yes.
pub open spec fn is_agreement(answer: Seq<char>) -> bool {
    let a = text::trim(answer);
    a == "y"@ || a == "Y"@ || a == "yes"@ || a == "Yes"@ || a == "YES"@
}

/// Whether the answer to a question is an explicit yes.
pub fn agrees(answer: &str) -> (r: bool)
    ensures
        r == is_agreement(answer@),
{
    let cs = chars_of(answer);
    let a = trimmed(cs.as_slice());
    spells(a, "y") || spells(a, "Y") || spells(a, "yes") || spells(a, "Yes") || spells(a, "YES")
}

} // verus!
