//! What is known of a process: where it was started, its command line, and
//! whether a user launched it.

use vstd::prelude::*;
use vstd::slice::slice_subrange;
use crate::model;
use crate::model::{Entry, EntryView};
use crate::number;
use crate::number::{digit, push_decimal, read_i32};
use crate::text;
use crate::text::{chars_of, last_position_of, spells, split_words, string_of, text_of, trimmed};

verus! {

// ---------------------------------------------------------------------------
// One process
// ---------------------------------------------------------------------------

/// `name` up to its first digit or dot.
pub open spec fn stem(name: Seq<char>) -> Seq<char>
    decreases name.len(),
{
    if name.len() == 0 || number::is_digit(name[0]) || name[0] == '.' {
        Seq::empty()
    } else {
        seq![name[0]] + stem(name.skip(1))
    }
}

/// Whether `stem` is the name of an interpreter, or of a server that one runs.
pub open spec fn is_interpreter(stem: Seq<char>) -> bool {
    ||| stem == "python"@
    ||| stem == "node"@
    ||| stem == "deno"@
    ||| stem == "bun"@
    ||| stem == "ruby"@
    ||| stem == "java"@
    ||| stem == "php"@
    ||| stem == "php-fpm"@
    ||| stem == "perl"@
    ||| stem == "dotnet"@
    ||| stem == "erl"@
    ||| stem == "beam"@
    ||| stem == "uvicorn"@
    ||| stem == "gunicorn"@
    ||| stem == "hypercorn"@
    ||| stem == "daphne"@
    ||| stem == "puma"@
    ||| stem == "unicorn"@
    ||| stem == "rails"@
}

fn stem_len(name: &[char]) -> (n: usize)
    ensures
        n <= name@.len(),
        name@.take(n as int) == stem(name@),
{
    let mut i: usize = 0;
    assert(name@.skip(0) =~= name@);
    assert(name@.take(0) + stem(name@.skip(0)) =~= stem(name@));
    while i < name.len() && !digit(name[i]) && name[i] != '.'
        invariant
            i <= name@.len(),
            name@.take(i as int) + stem(name@.skip(i as int)) == stem(name@),
        decreases name@.len() - i,
    {
        proof {
            let rest = name@.skip(i as int);
            assert(rest.skip(1) =~= name@.skip(i + 1));
            assert(name@.take(i as int) + (seq![rest[0]] + stem(name@.skip(i + 1))) =~= name@.take(
                i + 1,
            ) + stem(name@.skip(i + 1)));
        }
        i += 1;
    }
    assert(name@.take(i as int) + stem(name@.skip(i as int)) =~= name@.take(i as int));
    i
}

/// Whether an executable is an interpreter, whatever version its name ends in.
pub fn is_interpreter_exe(name: &str) -> (r: bool)
    ensures
        r == is_interpreter(stem(name@)),
{
    let cs = chars_of(name);
    let n: usize = stem_len(cs.as_slice());
    let s = slice_subrange(cs.as_slice(), 0, n);
    assert(s@ =~= cs@.take(n as int));
    spells(s, "python") || spells(s, "node") || spells(s, "deno") || spells(s, "bun") || spells(
        s,
        "ruby",
    ) || spells(s, "java") || spells(s, "php") || spells(s, "php-fpm") || spells(s, "perl")
        || spells(s, "dotnet") || spells(s, "erl") || spells(s, "beam") || spells(s, "uvicorn")
        || spells(s, "gunicorn") || spells(s, "hypercorn") || spells(s, "daphne") || spells(
        s,
        "puma",
    ) || spells(s, "unicorn") || spells(s, "rails")
}

/// Whether a `/proc/<pid>/stat` line names a controlling terminal: the fifth
/// field behind the last closing parenthesis is a number other than zero.
pub open spec fn stat_has_tty(stat: Seq<char>) -> bool {
    match text::rfind_char(stat, ')') {
        None => false,
        Some(i) => {
            let fields = text::words(stat.skip(i + 1));
            fields.len() > 4 && (match number::parse_i32(fields[4]) {
                Some(tty) => tty != 0,
                None => false,
            })
        },
    }
}

/// Reads from a `/proc/<pid>/stat` line whether the process has a terminal.
pub fn read_has_tty_proc(stat: Option<&str>) -> (r: bool)
    ensures
        r == match stat {
            Some(s) => stat_has_tty(s@),
            None => false,
        },
{
    let line = match stat {
        Some(s) => chars_of(s),
        None => {
            return false;
        },
    };
    let s = line.as_slice();
    match last_position_of(s, ')') {
        None => false,
        Some(i) => {
            let rest = slice_subrange(s, i + 1, s.len());
            assert(rest@ =~= s@.skip(i + 1));
            let fields = split_words(rest);
            assert(text::words(rest@).len() == fields@.len());
            if fields.len() > 4 {
                assert(text::words(rest@)[4] == fields@[4]@);
                match read_i32(fields[4]) {
                    Some(tty) => tty != 0,
                    None => false,
                }
            } else {
                false
            }
        },
    }
}

/// Whether a user launched a process: it has a terminal, or its executable
/// is an interpreter.
pub open spec fn user_launched(has_tty: bool, exe: Option<Seq<char>>) -> bool {
    has_tty || (match exe {
        Some(e) => is_interpreter(stem(e)),
        None => false,
    })
}

/// The index of the last slash in `path`.
pub open spec fn last_slash(path: Seq<u8>) -> Option<int>
    decreases path.len(),
{
    if path.len() == 0 {
        None
    } else if path.last() == 0x2f {
        Some(path.len() - 1)
    } else {
        last_slash(path.drop_last())
    }
}

/// What stands behind the last slash of `path`.
pub open spec fn last_part(path: Seq<u8>) -> Seq<u8> {
    match last_slash(path) {
        Some(i) => path.skip(i + 1),
        None => path,
    }
}

/// The name of the file that `path` leads to: its last part, where empty
/// parts and single dots do not count. A path that ends in two dots has none.
pub open spec fn file_name(path: Seq<u8>) -> Option<Seq<u8>>
    decreases path.len(),
    when true
    via file_name_decreases
{
    let part = last_part(path);
    if part.len() == 0 || part == seq![0x2eu8] {
        match last_slash(path) {
            Some(i) => file_name(path.take(i)),
            None => None,
        }
    } else if part == seq![0x2eu8, 0x2eu8] {
        None
    } else {
        Some(part)
    }
}

#[via_fn]
proof fn file_name_decreases(path: Seq<u8>) {
    lemma_last_slash(path);
}

proof fn lemma_last_slash(path: Seq<u8>)
    ensures
        match last_slash(path) {
            Some(i) => 0 <= i < path.len(),
            None => true,
        },
    decreases path.len(),
{
    if path.len() > 0 {
        lemma_last_slash(path.drop_last());
    }
}

/// The name of an executable, from the bytes of the path that the
/// `/proc/<pid>/exe` link points to.
pub open spec fn exe_name(link: Option<Seq<u8>>) -> Option<Seq<char>> {
    match link {
        Some(l) => match file_name(l) {
            Some(n) => Some(text::utf8_lossy(n)),
            None => None,
        },
        None => None,
    }
}

/// The bytes of an optional path.
pub open spec fn link_view(link: Option<&[u8]>) -> Option<Seq<u8>> {
    match link {
        Some(l) => Some(l@),
        None => None,
    }
}

/// Reads the name of an executable from the bytes of the path that the
/// `/proc/<pid>/exe` link points to.
pub fn read_exe_basename_proc(link: Option<&[u8]>) -> (r: Option<String>)
    ensures
        model::opt_view(r) == exe_name(link_view(link)),
{
    let path = match link {
        Some(l) => l,
        None => {
            return None;
        },
    };
    let mut end: usize = path.len();
    assert(path@.take(end as int) =~= path@);
    loop
        invariant
            end <= path@.len(),
            file_name(path@) == file_name(path@.take(end as int)),
            exe_name(link_view(link)) == exe_name(Some(path@)),
        decreases end,
    {
        let ghost whole = path@.take(end as int);
        let mut start: usize = end;
        assert(whole.take(end as int) =~= whole);
        while start > 0 && path[start - 1] != 0x2f
            invariant
                start <= end <= path@.len(),
                whole == path@.take(end as int),
                forall|i: int| start <= i < end ==> path@[i] != 0x2f,
                last_slash(whole) == last_slash(whole.take(start as int)),
            decreases start,
        {
            assert(whole.take(start as int).drop_last() =~= whole.take(start - 1));
            start -= 1;
        }
        let part = slice_subrange(path, start, end);
        proof {
            if start > 0 {
                assert(whole.take(start as int).last() == 0x2f);
                assert(last_slash(whole) == Some(start - 1));
                assert(part@ =~= whole.skip(start as int));
                assert(whole.take(start - 1) =~= path@.take(start - 1));
            } else {
                assert(last_slash(whole) is None);
                assert(part@ =~= whole);
            }
        }
        let n: usize = part.len();
        if n == 0 || (n == 1 && part[0] == 0x2e) {
            assert(part@.len() == 0 || part@ =~= seq![0x2eu8]);
            if start == 0 {
                return None;
            }
            end = start - 1;
        } else if n == 2 && part[0] == 0x2e && part[1] == 0x2e {
            assert(part@ =~= seq![0x2eu8, 0x2eu8]);
            return None;
        } else {
            return Some(text_of(part));
        }
    }
}

/// Decides from its `/proc/<pid>/stat` line and the path that its
/// `/proc/<pid>/exe` link points to whether a user launched a process.
pub fn read_user_launched_proc(stat: Option<&str>, exe: Option<&[u8]>) -> (r: bool)
    ensures
        r == user_launched(
            match stat {
                Some(s) => stat_has_tty(s@),
                None => false,
            },
            exe_name(link_view(exe)),
        ),
{
    if read_has_tty_proc(stat) {
        return true;
    }
    match read_exe_basename_proc(exe) {
        Some(e) => is_interpreter_exe(e.as_str()),
        None => false,
    }
}

/// `s`, or a dash where it is empty.
pub open spec fn or_dash(s: Seq<char>) -> Seq<char> {
    if s.len() == 0 {
        "-"@
    } else {
        s
    }
}

/// The bytes of `/proc/<pid>/cmdline` with a space for each NUL.
pub open spec fn spaced(bytes: Seq<u8>) -> Seq<u8> {
    bytes.map_values(
        |b: u8|
            if b == 0 {
                32u8
            } else {
                b
            },
    )
}

/// A command line as it is shown.
pub open spec fn shown_cmdline(text: Seq<char>) -> Seq<char> {
    or_dash(text::trim(text))
}

/// Makes a command line fit to be shown.
pub fn clean_cmdline(cmdline: &str) -> (r: String)
    ensures
        r@ == shown_cmdline(cmdline@),
{
    let cs = chars_of(cmdline);
    let t = trimmed(cs.as_slice());
    if t.len() == 0 {
        "-".to_owned()
    } else {
        string_of(t)
    }
}

/// Reads a command line from the bytes of `/proc/<pid>/cmdline`; a question
/// mark stands for one that cannot be read.
pub fn read_cmdline_proc(bytes: Option<&[u8]>) -> (r: String)
    ensures
        r@ == match bytes {
            Some(b) => shown_cmdline(text::utf8_lossy(spaced(b@))),
            None => "?"@,
        },
{
    let b = match bytes {
        Some(b) => b,
        None => {
            return "?".to_owned();
        },
    };
    let mut out: Vec<u8> = Vec::new();
    let mut i: usize = 0;
    while i < b.len()
        invariant
            i <= b@.len(),
            out@ =~= spaced(b@).take(i as int),
        decreases b@.len() - i,
    {
        if b[i] == 0 {
            out.push(32u8);
        } else {
            out.push(b[i]);
        }
        i += 1;
    }
    assert(spaced(b@).take(i as int) =~= spaced(b@));
    let t = text_of(out.as_slice());
    clean_cmdline(t.as_str())
}

/// The working directory from the bytes of the path that the
/// `/proc/<pid>/cwd` link points to; a question mark stands for one that
/// cannot be read.
pub fn read_cwd_proc(link: Option<&[u8]>) -> (r: String)
    ensures
        r@ == match link {
            Some(l) => text::utf8_lossy(l@),
            None => "?"@,
        },
{
    match link {
        Some(l) => text_of(l),
        None => "?".to_owned(),
    }
}

// ---------------------------------------------------------------------------
// All listeners, on Linux
// ---------------------------------------------------------------------------

/// The processes of `entries`, each once, in order.
pub open spec fn pids_of(entries: Seq<EntryView>) -> Seq<u32>
    decreases entries.len(),
{
    if entries.len() == 0 {
        Seq::empty()
    } else {
        let before = pids_of(entries.drop_last());
        match entries.last().pid {
            Some(p) => if before.contains(p) {
                before
            } else {
                before.push(p)
            },
            None => before,
        }
    }
}

/// Lists the processes to read about: a process on many ports is read once.
pub fn unique_pids(entries: &Vec<Entry>) -> (out: Vec<u32>)
    ensures
        out@ == pids_of(model::views(entries@)),
{
    let ghost es = model::views(entries@);
    let mut out: Vec<u32> = Vec::new();
    let mut i: usize = 0;
    assert(es.take(0) =~= Seq::<EntryView>::empty());
    while i < entries.len()
        invariant
            i <= entries@.len(),
            es == model::views(entries@),
            out@ == pids_of(es.take(i as int)),
        decreases entries@.len() - i,
    {
        assert(es.take(i + 1).drop_last() =~= es.take(i as int));
        assert(es.take(i + 1).last() == entries@[i as int]@);
        if let Some(p) = entries[i].pid {
            if !crate::kill::has_number(&out, p) {
                out.push(p);
            }
        }
        i += 1;
    }
    assert(es.take(i as int) =~= es);
    out
}

/// Every process of the listeners is read about, and each only once.
pub proof fn law_processes_are_read_once(entries: Seq<EntryView>)
    ensures
        pids_of(entries).no_duplicates(),
        forall|p: u32|
            pids_of(entries).contains(p) <==> exists|i: int|
                0 <= i < entries.len() && (#[trigger] entries[i]).pid == Some(p),
    decreases entries.len(),
{
    if entries.len() > 0 {
        let early = entries.drop_last();
        law_processes_are_read_once(early);
        let before = pids_of(early);
        let now = pids_of(entries);
        assert forall|p: u32| now.contains(p) <==> exists|i: int|
            0 <= i < entries.len() && (#[trigger] entries[i]).pid == Some(p) by {
            if now.contains(p) {
                let k = choose|k: int| 0 <= k < now.len() && now[k] == p;
                if k < before.len() {
                    assert(before[k] == p);
                    assert(before.contains(p));
                    let i = choose|i: int|
                        0 <= i < early.len() && (#[trigger] early[i]).pid == Some(p);
                    assert(entries[i].pid == Some(p));
                } else {
                    assert(entries[entries.len() - 1].pid == Some(p));
                }
            }
            if exists|i: int| 0 <= i < entries.len() && (#[trigger] entries[i]).pid == Some(p) {
                let i = choose|i: int|
                    0 <= i < entries.len() && (#[trigger] entries[i]).pid == Some(p);
                if i < early.len() {
                    assert(early[i].pid == Some(p));
                    assert(before.contains(p));
                }
                if before.contains(p) {
                    let k = choose|k: int| 0 <= k < before.len() && before[k] == p;
                    assert(now[k] == p);
                } else {
                    assert(now[before.len() as int] == p);
                }
            }
        }
    }
}

/// Process numbers as `ps` and `lsof` take them: with commas between them.
pub open spec fn comma_list(pids: Seq<u32>) -> Seq<char>
    decreases pids.len(),
{
    if pids.len() == 0 {
        Seq::empty()
    } else if pids.len() == 1 {
        number::decimal(pids[0] as nat)
    } else {
        comma_list(pids.drop_last()) + ","@ + number::decimal(pids.last() as nat)
    }
}

/// Writes process numbers as `ps` and `lsof` take them.
pub fn pid_list(pids: &Vec<u32>) -> (r: String)
    ensures
        r@ == comma_list(pids@),
{
    let mut s = String::new();
    let mut i: usize = 0;
    assert(pids@.take(0) =~= Seq::<u32>::empty());
    while i < pids.len()
        invariant
            i <= pids@.len(),
            s@ =~= comma_list(pids@.take(i as int)),
        decreases pids@.len() - i,
    {
        assert(pids@.take(i + 1).drop_last() =~= pids@.take(i as int));
        assert(pids@.take(i + 1).last() == pids@[i as int]);
        if i > 0 {
            s.append(",");
        }
        push_decimal(&mut s, pids[i] as u64);
        i += 1;
    }
    assert(pids@.take(i as int) =~= pids@);
    s
}

/// What was read about a process.
#[derive(Debug, PartialEq, Eq)]
pub struct ProcessInfo {
    pub pid: u32,
    pub cwd: String,
    pub cmdline: String,
    pub user_launched: bool,
}

/// The view of `ProcessInfo`.
#[verifier::ext_equal]
pub struct ProcessView {
    pub pid: u32,
    pub cwd: Seq<char>,
    pub cmdline: Seq<char>,
    pub user_launched: bool,
}

impl View for ProcessInfo {
    type V = ProcessView;

    open spec fn view(&self) -> ProcessView {
        ProcessView {
            pid: self.pid,
            cwd: self.cwd@,
            cmdline: self.cmdline@,
            user_launched: self.user_launched,
        }
    }
}

/// The views of what was read about some processes.
pub open spec fn process_views(v: Seq<ProcessInfo>) -> Seq<ProcessView> {
    v.map_values(|p: ProcessInfo| p@)
}

/// What was read last about `pid`.
pub open spec fn info_of(info: Seq<ProcessView>, pid: u32) -> Option<ProcessView>
    decreases info.len(),
{
    if info.len() == 0 {
        None
    } else if info.last().pid == pid {
        Some(info.last())
    } else {
        info_of(info.drop_last(), pid)
    }
}

/// A listener with what was read about its process. Dashes stand for a
/// process that cannot be seen.
pub open spec fn with_process(e: EntryView, info: Seq<ProcessView>) -> EntryView {
    match e.pid {
        None => EntryView { cwd: "-"@, cmdline: "-"@, ..e },
        Some(pid) => match info_of(info, pid) {
            Some(p) => EntryView {
                cwd: p.cwd,
                cmdline: p.cmdline,
                user_launched: p.user_launched,
                ..e
            },
            None => e,
        },
    }
}

fn find_info(info: &Vec<ProcessInfo>, pid: u32) -> (r: Option<usize>)
    ensures
        match r {
            Some(i) => i < info@.len() && info_of(process_views(info@), pid) == Some(
                info@[i as int]@,
            ),
            None => info_of(process_views(info@), pid) is None,
        },
{
    let ghost all = process_views(info@);
    let mut i: usize = info.len();
    assert(all.take(i as int) =~= all);
    while i > 0
        invariant
            i <= info@.len(),
            all == process_views(info@),
            info_of(all, pid) == info_of(all.take(i as int), pid),
        decreases i,
    {
        i -= 1;
        assert(all.take(i + 1).drop_last() =~= all.take(i as int));
        assert(all.take(i + 1).last() == info@[i as int]@);
        if info[i].pid == pid {
            return Some(i);
        }
    }
    None
}

/// Gives every listener what was read about its process.
pub fn enrich_process_info(entries: &mut Vec<Entry>, info: &Vec<ProcessInfo>)
    ensures
        model::views(final(entries)@) == model::views(old(entries)@).map_values(
            |e: EntryView| with_process(e, process_views(info@)),
        ),
{
    let ghost ps = process_views(info@);
    let ghost before = model::views(entries@);
    let n: usize = entries.len();
    let mut i: usize = 0;
    while i < n
        invariant
            n == entries@.len(),
            n == before.len(),
            i <= n,
            ps == process_views(info@),
            forall|k: int| 0 <= k < i ==> (#[trigger] entries@[k])@ == with_process(before[k], ps),
            forall|k: int| i <= k < n ==> (#[trigger] entries@[k])@ == before[k],
        decreases n - i,
    {
        let ghost old_e = entries@[i as int]@;
        match entries[i].pid {
            None => {
                let e = &mut entries[i];
                e.cwd = "-".to_owned();
                e.cmdline = "-".to_owned();
            },
            Some(pid) => {
                if let Some(k) = find_info(info, pid) {
                    let e = &mut entries[i];
                    e.cwd = info[k].cwd.clone();
                    e.cmdline = info[k].cmdline.clone();
                    e.user_launched = info[k].user_launched;
                }
            },
        }
        assert(entries@[i as int]@ =~= with_process(old_e, ps));
        i += 1;
    }
    assert(model::views(entries@) =~= before.map_values(|e: EntryView| with_process(e, ps)));
}

} // verus!
