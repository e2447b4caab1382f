//! What is known of the processes behind the listeners on macOS, from two
//! passes of `ps` and one of `lsof`.

use vstd::prelude::*;
use vstd::slice::slice_subrange;
use crate::command;
use crate::command::{output_text, CommandResult};
use crate::model;
use crate::model::{Entry, EntryView};
use crate::number;
use crate::number::read_u32;
use crate::process;
use crate::process::is_interpreter_exe;
use crate::text;
use crate::text::{
    chars_of, last_position_of, leading_word_len, spells, split_lines, split_words, string_of,
    trimmed, trimmed_start,
};

verus! {

// ---------------------------------------------------------------------------
// ps -o pid=,tty=,comm=
// ---------------------------------------------------------------------------

/// `words`, with a space between each two.
pub open spec fn spaced_words(words: Seq<Seq<char>>) -> Seq<char>
    decreases words.len(),
{
    if words.len() == 0 {
        Seq::empty()
    } else if words.len() == 1 {
        words[0]
    } else {
        spaced_words(words.drop_last()) + " "@ + words.last()
    }
}

/// What stands behind the last slash of `path`.
pub open spec fn basename(path: Seq<char>) -> Seq<char> {
    match text::rfind_char(path, '/') {
        Some(i) => path.skip(i + 1),
        None => path,
    }
}

/// Whether a `tty` column names a terminal.
pub open spec fn names_tty(tty: Seq<char>) -> bool {
    tty != "??"@ && tty != "?"@ && tty != "-"@
}

/// What a line says of `pid`: whether it has a terminal, and the name of its
/// executable, whose path may hold spaces.
pub open spec fn tty_in(line: Seq<char>, pid: u32) -> Option<(bool, Seq<char>)> {
    let parts = text::words(line);
    if parts.len() >= 3 && number::parse_u32(parts[0]) == Some(pid) {
        Some((names_tty(parts[1]), basename(spaced_words(parts.skip(2)))))
    } else {
        None
    }
}

/// What the last line about `pid` says of it.
pub open spec fn tty_of(lines: Seq<Seq<char>>, pid: u32) -> Option<(bool, Seq<char>)>
    decreases lines.len(),
{
    if lines.len() == 0 {
        None
    } else {
        match tty_in(lines.last(), pid) {
            Some(t) => Some(t),
            None => tty_of(lines.drop_last(), pid),
        }
    }
}

fn join_from(parts: &Vec<&[char]>, from: usize) -> (r: String)
    requires
        from < parts.len(),
    ensures
        r@ == spaced_words(text::pieces(parts@).skip(from as int)),
{
    let ghost all = text::pieces(parts@).skip(from as int);
    let mut s = string_of(parts[from]);
    let mut i: usize = from + 1;
    assert(all.take(1) =~= seq![parts@[from as int]@]);
    while i < parts.len()
        invariant
            from < i <= parts@.len(),
            all == text::pieces(parts@).skip(from as int),
            s@ == spaced_words(all.take(i - from)),
        decreases parts@.len() - i,
    {
        let word = string_of(parts[i]);
        s.append(" ");
        s.append(word.as_str());
        assert(all.take(i + 1 - from).drop_last() =~= all.take(i - from));
        assert(all.take(i + 1 - from).last() == word@);
        i += 1;
    }
    assert(all.take(i - from) =~= all);
    s
}

fn find_tty(lines: &Vec<&[char]>, pid: u32) -> (r: Option<(bool, String)>)
    ensures
        match r {
            Some((has_tty, exe)) => tty_of(text::pieces(lines@), pid) == Some((has_tty, exe@)),
            None => tty_of(text::pieces(lines@), pid) is None,
        },
{
    let ghost all = text::pieces(lines@);
    let mut i: usize = lines.len();
    assert(all.take(i as int) =~= all);
    while i > 0
        invariant
            i <= lines@.len(),
            all == text::pieces(lines@),
            tty_of(all, pid) == tty_of(all.take(i as int), pid),
        decreases i,
    {
        i -= 1;
        let line = lines[i];
        assert(all.take(i + 1).drop_last() =~= all.take(i as int));
        assert(all.take(i + 1).last() == line@);
        let parts = split_words(line);
        let ghost ps = text::pieces(parts@);
        assert(ps.len() == parts@.len());
        if parts.len() >= 3 {
            assert(ps[0] == parts@[0]@ && ps[1] == parts@[1]@);
            if let Some(p) = read_u32(parts[0]) {
                if p == pid {
                    let tty = parts[1];
                    let has_tty: bool = !spells(tty, "??") && !spells(tty, "?") && !spells(
                        tty,
                        "-",
                    );
                    let comm = join_from(&parts, 2);
                    let cs = chars_of(comm.as_str());
                    let exe: String = match last_position_of(cs.as_slice(), '/') {
                        Some(k) => {
                            let b = slice_subrange(cs.as_slice(), k + 1, cs.len());
                            assert(b@ =~= cs@.skip(k + 1));
                            string_of(b)
                        },
                        None => comm,
                    };
                    return Some((has_tty, exe));
                }
            }
        }
    }
    None
}

// ---------------------------------------------------------------------------
// ps -o pid=,command=
// ---------------------------------------------------------------------------

/// The command line that a line states for `pid`.
pub open spec fn cmdline_in(line: Seq<char>, pid: u32) -> Option<Seq<char>> {
    let t = text::trim_start(line);
    let n = text::word_len(t);
    if n < t.len() && number::parse_u32(t.take(n as int)) == Some(pid) {
        Some(process::or_dash(text::trim(t.skip(n as int))))
    } else {
        None
    }
}

/// The command line that the last line about `pid` states.
pub open spec fn cmdline_of(lines: Seq<Seq<char>>, pid: u32) -> Option<Seq<char>>
    decreases lines.len(),
{
    if lines.len() == 0 {
        None
    } else {
        match cmdline_in(lines.last(), pid) {
            Some(c) => Some(c),
            None => cmdline_of(lines.drop_last(), pid),
        }
    }
}

fn find_cmdline(lines: &Vec<&[char]>, pid: u32) -> (r: Option<String>)
    ensures
        model::opt_view(r) == cmdline_of(text::pieces(lines@), pid),
{
    let ghost all = text::pieces(lines@);
    let mut i: usize = lines.len();
    assert(all.take(i as int) =~= all);
    while i > 0
        invariant
            i <= lines@.len(),
            all == text::pieces(lines@),
            cmdline_of(all, pid) == cmdline_of(all.take(i as int), pid),
        decreases i,
    {
        i -= 1;
        let line = lines[i];
        assert(all.take(i + 1).drop_last() =~= all.take(i as int));
        assert(all.take(i + 1).last() == line@);
        let t = trimmed_start(line);
        let n: usize = leading_word_len(t);
        if n < t.len() {
            let head = slice_subrange(t, 0, n);
            let tail = slice_subrange(t, n, t.len());
            assert(head@ =~= t@.take(n as int));
            assert(tail@ =~= t@.skip(n as int));
            if let Some(p) = read_u32(head) {
                if p == pid {
                    let cmd = trimmed(tail);
                    if cmd.len() == 0 {
                        return Some("-".to_owned());
                    }
                    return Some(string_of(cmd));
                }
            }
        }
    }
    None
}

// ---------------------------------------------------------------------------
// lsof -d cwd -Fn
// ---------------------------------------------------------------------------

/// The process that the lines before this point are about.
pub open spec fn current_pid(lines: Seq<Seq<char>>) -> Option<u32>
    decreases lines.len(),
{
    if lines.len() == 0 {
        None
    } else if lines.last().len() > 0 && lines.last()[0] == 'p' {
        number::parse_u32(lines.last().skip(1))
    } else {
        current_pid(lines.drop_last())
    }
}

/// The working directory that the first `n` line of `pid` states.
pub open spec fn cwd_of(lines: Seq<Seq<char>>, pid: u32) -> Option<Seq<char>>
    decreases lines.len(),
{
    if lines.len() == 0 {
        None
    } else {
        match cwd_of(lines.drop_last(), pid) {
            Some(c) => Some(c),
            None => if lines.last().len() > 0 && lines.last()[0] == 'n' && current_pid(
                lines.drop_last(),
            ) == Some(pid) {
                Some(lines.last().skip(1))
            } else {
                None
            },
        }
    }
}

proof fn lemma_first_cwd_stays(lines: Seq<Seq<char>>, pid: u32, k: int)
    requires
        0 <= k <= lines.len(),
        cwd_of(lines.take(k), pid) is Some,
    ensures
        cwd_of(lines, pid) == cwd_of(lines.take(k), pid),
    decreases lines.len() - k,
{
    if k == lines.len() {
        assert(lines.take(k) =~= lines);
    } else {
        assert(lines.take(k + 1).drop_last() =~= lines.take(k));
        lemma_first_cwd_stays(lines, pid, k + 1);
    }
}

fn find_cwd(lines: &Vec<&[char]>, pid: u32) -> (r: Option<String>)
    ensures
        model::opt_view(r) == cwd_of(text::pieces(lines@), pid),
{
    let ghost all = text::pieces(lines@);
    let mut cur: Option<u32> = None;
    let mut i: usize = 0;
    assert(all.take(0) =~= Seq::<Seq<char>>::empty());
    while i < lines.len()
        invariant
            i <= lines@.len(),
            all == text::pieces(lines@),
            cwd_of(all.take(i as int), pid) is None,
            current_pid(all.take(i as int)) == cur,
        decreases lines@.len() - i,
    {
        let line = lines[i];
        assert(all.take(i + 1).drop_last() =~= all.take(i as int));
        assert(all.take(i + 1).last() == line@);
        if line.len() > 0 {
            let value = slice_subrange(line, 1, line.len());
            assert(value@ =~= line@.skip(1));
            if line[0] == 'p' {
                cur = read_u32(value);
            } else if line[0] == 'n' {
                if let Some(p) = cur {
                    if p == pid {
                        proof {
                            lemma_first_cwd_stays(all, pid, i + 1);
                        }
                        return Some(string_of(value));
                    }
                }
            }
        }
        i += 1;
    }
    assert(all.take(i as int) =~= all);
    None
}

// ---------------------------------------------------------------------------
// All listeners
// ---------------------------------------------------------------------------

/// `o`, or a question mark where there is nothing.
pub open spec fn or_question(o: Option<Seq<char>>) -> Seq<char> {
    match o {
        Some(s) => s,
        None => "?"@,
    }
}

/// A listener with what the three passes say of its process. Dashes stand
/// for a process that cannot be seen, question marks for what no pass states.
pub open spec fn with_process(
    e: EntryView,
    ttys: Seq<Seq<char>>,
    cmdlines: Seq<Seq<char>>,
    cwds: Seq<Seq<char>>,
) -> EntryView {
    match e.pid {
        None => EntryView { cwd: "-"@, cmdline: "-"@, ..e },
        Some(pid) => EntryView {
            cwd: or_question(cwd_of(cwds, pid)),
            cmdline: or_question(cmdline_of(cmdlines, pid)),
            user_launched: match tty_of(ttys, pid) {
                Some((has_tty, exe)) => process::user_launched(has_tty, Some(exe)),
                None => false,
            },
            ..e
        },
    }
}

fn question(o: Option<String>) -> (r: String)
    ensures
        r@ == or_question(model::opt_view(o)),
{
    match o {
        Some(s) => s,
        None => "?".to_owned(),
    }
}

/// Gives every listener what the three passes printed about its process.
pub fn apply_process_info(entries: &mut Vec<Entry>, tty_out: &str, cmd_out: &str, cwd_out: &str)
    ensures
        model::views(final(entries)@) == model::views(old(entries)@).map_values(
            |e: EntryView|
                with_process(e, text::lines(tty_out@), text::lines(cmd_out@), text::lines(cwd_out@)),
        ),
{
    let tty_chars = chars_of(tty_out);
    let cmd_chars = chars_of(cmd_out);
    let cwd_chars = chars_of(cwd_out);
    let ttys = split_lines(tty_chars.as_slice());
    let cmdlines = split_lines(cmd_chars.as_slice());
    let cwds = split_lines(cwd_chars.as_slice());
    let ghost ts = text::lines(tty_out@);
    let ghost cs = text::lines(cmd_out@);
    let ghost ds = text::lines(cwd_out@);
    let ghost before = model::views(entries@);
    let n: usize = entries.len();
    let mut i: usize = 0;
    while i < n
        invariant
            n == entries@.len(),
            n == before.len(),
            i <= n,
            ts == text::pieces(ttys@),
            cs == text::pieces(cmdlines@),
            ds == text::pieces(cwds@),
            forall|k: int|
                0 <= k < i ==> (#[trigger] entries@[k])@ == with_process(before[k], ts, cs, ds),
            forall|k: int| i <= k < n ==> (#[trigger] entries@[k])@ == before[k],
        decreases n - i,
    {
        let ghost old_e = entries@[i as int]@;
        match entries[i].pid {
            None => {
                let e = &mut entries[i];
                e.cwd = "-".to_owned();
                e.cmdline = "-".to_owned();
            },
            Some(pid) => {
                let cwd = question(find_cwd(&cwds, pid));
                let cmdline = question(find_cmdline(&cmdlines, pid));
                let launched: bool = match find_tty(&ttys, pid) {
                    Some((has_tty, exe)) => has_tty || is_interpreter_exe(exe.as_str()),
                    None => false,
                };
                let e = &mut entries[i];
                e.cwd = cwd;
                e.cmdline = cmdline;
                e.user_launched = launched;
            },
        }
        assert(entries@[i as int]@ =~= with_process(old_e, ts, cs, ds));
        i += 1;
    }
    assert(model::views(entries@) =~= before.map_values(
        |e: EntryView| with_process(e, ts, cs, ds),
    ));
}

/// Gives every listener what came of the three passes about its process:
/// `ps -o pid=,tty=,comm=`, `ps -o pid=,command=` and `lsof -d cwd -Fn`. A
/// pass that could not be made says nothing.
pub fn enrich_process_info(
    entries: &mut Vec<Entry>,
    tty_pass: &CommandResult,
    cmd_pass: &CommandResult,
    cwd_pass: &CommandResult,
)
    ensures
        model::views(final(entries)@) == model::views(old(entries)@).map_values(
            |e: EntryView|
                with_process(
                    e,
                    text::lines(command::written(tty_pass@)),
                    text::lines(command::written(cmd_pass@)),
                    text::lines(command::written(cwd_pass@)),
                ),
        ),
{
    let t = output_text(tty_pass);
    let c = output_text(cmd_pass);
    let d = output_text(cwd_pass);
    apply_process_info(entries, t.as_str(), c.as_str(), d.as_str());
}

} // verus!
