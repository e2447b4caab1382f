//! Usage figures of local processes, from the output of `ps`.

use vstd::prelude::*;
use vstd::slice::slice_subrange;
use crate::command;
use crate::command::{output_text, CommandResult};
use crate::model;
use crate::model::{Entry, EntryView, Stats, StatsView};
use crate::number;
use crate::number::{push_decimal, read_u32, read_u64};
use crate::text;
use crate::text::{
    chars_of, position_of, split_at_char, split_lines, split_words, string_of,
};

verus! {

// ---------------------------------------------------------------------------
// Memory
// ---------------------------------------------------------------------------

pub const KB: u64 = 1024;

pub const MB: u64 = 1048576;

pub const GB: u64 = 1073741824;

/// `n / d` rounded to the nearest whole number, and to an even one from
/// halfway between two.
pub open spec fn round_even(n: nat, d: nat) -> nat {
    let q = n / d;
    let r = n % d;
    if 2 * r < d || (2 * r == d && q % 2 == 0) {
        q
    } else {
        q + 1
    }
}

/// The distance between neighbouring double-precision numbers at `n`, a
/// power of two from `unit` up.
pub open spec fn double_unit(n: nat, unit: nat) -> nat
    decreases n / unit,
    when unit > 0
    via double_unit_decreases
{
    if n / unit < 0x20_0000_0000_0000 {
        unit
    } else {
        double_unit(n, 2 * unit)
    }
}

#[via_fn]
proof fn double_unit_decreases(n: nat, unit: nat) {
    if n / unit >= 0x20_0000_0000_0000 {
        lemma_half_quotient(n, unit);
    }
}

proof fn lemma_half_quotient(n: nat, unit: nat)
    requires
        unit > 0,
    ensures
        n / (2 * unit) == (n / unit) / 2,
{
    vstd::arithmetic::div_mod::lemma_div_denominator(n as int, unit as int, 2);
    assert(unit * 2 == 2 * unit);
}

/// The double-precision number nearest to `n`.
pub open spec fn nearest_double(n: nat) -> nat {
    round_even(n, double_unit(n, 1)) * double_unit(n, 1)
}

/// A memory size as it is shown: gigabytes to one decimal place, whole
/// megabytes, whole kilobytes (rounded down), or bytes. Gigabytes are taken
/// of the size as a double-precision number.
pub open spec fn mem_text(bytes: nat) -> Seq<char> {
    if bytes >= GB {
        let tenths = round_even(10 * nearest_double(bytes), GB as nat);
        number::decimal(tenths / 10) + "."@ + number::decimal(tenths % 10) + "G"@
    } else if bytes >= MB {
        number::decimal(round_even(bytes, MB as nat)) + "M"@
    } else if bytes >= KB {
        number::decimal(bytes / KB as nat) + "K"@
    } else {
        number::decimal(bytes) + "B"@
    }
}

fn rounded(n: u128, d: u128) -> (r: u128)
    requires
        0 < d <= 0x1_0000_0000_0000,
        n <= 0x100_0000_0000_0000_0000,
    ensures
        r == round_even(n as nat, d as nat),
        r <= n / d + 1,
{
    let q: u128 = n / d;
    let rest: u128 = n % d;
    proof {
        assert(q <= n) by (nonlinear_arith)
            requires
                d > 0,
                q == n / d,
        ;
    }
    if 2 * rest < d || (2 * rest == d && q % 2 == 0) {
        q
    } else {
        q + 1
    }
}

/// The double-precision number nearest to `n`.
fn as_double(n: u64) -> (r: u128)
    ensures
        r == nearest_double(n as nat),
        r <= 0x2_0000_0000_0000_0000,
{
    let wide: u128 = n as u128;
    let mut unit: u128 = 1;
    while wide / unit >= 0x20_0000_0000_0000
        invariant
            wide == n,
            1 <= unit <= 0x1000,
            double_unit(n as nat, 1) == double_unit(n as nat, unit as nat),
        decreases 0x1000 - unit,
    {
        proof {
            lemma_unit_room(wide as nat, unit as nat);
        }
        unit = unit * 2;
    }
    let q: u128 = rounded(wide, unit);
    proof {
        assert(q * unit <= 0x2_0000_0000_0000_0000) by (nonlinear_arith)
            requires
                q <= wide / unit + 1,
                wide <= 0xffff_ffff_ffff_ffff,
                1 <= unit <= 0x1000,
        ;
    }
    q * unit
}

proof fn lemma_unit_room(n: nat, unit: nat)
    requires
        n <= 0xffff_ffff_ffff_ffff,
        1 <= unit,
        n / unit >= 0x20_0000_0000_0000,
    ensures
        unit < 0x800,
{
    assert(unit < 0x800) by (nonlinear_arith)
        requires
            n <= 0xffff_ffff_ffff_ffff,
            n / unit >= 0x20_0000_0000_0000,
            1 <= unit,
    ;
}

/// Writes a memory size as it is shown.
pub fn format_mem(bytes: u64) -> (r: String)
    ensures
        r@ == mem_text(bytes as nat),
{
    let mut s = String::new();
    if bytes >= GB {
        let x: u128 = as_double(bytes);
        let tenths: u128 = rounded(10 * x, GB as u128);
        proof {
            assert(tenths <= 0xffff_ffff_ffff_ffff) by (nonlinear_arith)
                requires
                    tenths <= (10 * x) / (GB as int) + 1,
                    x <= 0x2_0000_0000_0000_0000,
                    GB == 1073741824,
            ;
        }
        let t: u64 = tenths as u64;
        push_decimal(&mut s, t / 10);
        s.append(".");
        push_decimal(&mut s, t % 10);
        s.append("G");
    } else if bytes >= MB {
        let m: u128 = rounded(bytes as u128, MB as u128);
        push_decimal(&mut s, m as u64);
        s.append("M");
    } else if bytes >= KB {
        push_decimal(&mut s, bytes / KB);
        s.append("K");
    } else {
        push_decimal(&mut s, bytes);
        s.append("B");
    }
    assert(s@ =~= mem_text(bytes as nat));
    s
}

/// A size is shown within half a unit of what it is, as long as a
/// double-precision number holds it exactly.
pub proof fn law_mem_is_close(bytes: nat)
    requires
        bytes < 0x20_0000_0000_0000,
    ensures
        nearest_double(bytes) == bytes,
        2 * MB * round_even(bytes, MB as nat) <= 2 * bytes + MB,
        2 * bytes <= 2 * MB * round_even(bytes, MB as nat) + MB,
        2 * GB * round_even(10 * nearest_double(bytes), GB as nat) <= 20 * bytes + GB,
        20 * bytes <= 2 * GB * round_even(10 * nearest_double(bytes), GB as nat) + GB,
{
    assert(double_unit(bytes, 1) == 1);
    assert(round_even(bytes, 1) == bytes);
    lemma_round_even_close(bytes, MB as nat);
    lemma_round_even_close(10 * bytes, GB as nat);
}

proof fn lemma_round_even_close(n: nat, d: nat)
    requires
        d > 0,
    ensures
        2 * d * round_even(n, d) <= 2 * n + d,
        2 * n <= 2 * d * round_even(n, d) + d,
{
    let q = n / d;
    let r = n % d;
    assert(n == q * d + r && 0 <= r < d) by (nonlinear_arith)
        requires
            d > 0,
            q == n / d,
            r == n % d,
    ;
    let e = round_even(n, d);
    assert(e == q || e == q + 1);
    assert(2 * d * q == 2 * (q * d)) by (nonlinear_arith);
    assert(2 * d * (q + 1) == 2 * (q * d) + 2 * d) by (nonlinear_arith);
}

// ---------------------------------------------------------------------------
// Uptime
// ---------------------------------------------------------------------------

/// The number that `s` spells, or zero.
pub open spec fn number_or_zero(s: Seq<char>) -> nat {
    match number::parse_u64(s) {
        Some(n) => n as nat,
        None => 0,
    }
}

/// The seconds of an elapsed time such as `2-03:04:05`, `03:04:05`, `04:05`
/// or `05`. The sum wraps around, as it does in a release build.
pub open spec fn elapsed_seconds(et: Seq<char>) -> Option<nat> {
    let (days, rest) = match text::find_char(et, '-') {
        Some(i) => (number_or_zero(et.take(i)), et.skip(i + 1)),
        None => (0, et),
    };
    let p = text::split(rest, ':');
    let day = days * 86400;
    if p.len() == 3 {
        Some(
            (day + number_or_zero(p[0]) * 3600 + number_or_zero(p[1]) * 60 + number_or_zero(p[2]))
                % 0x1_0000_0000_0000_0000,
        )
    } else if p.len() == 2 {
        Some((day + number_or_zero(p[0]) * 60 + number_or_zero(p[1])) % 0x1_0000_0000_0000_0000)
    } else if p.len() == 1 {
        Some((day + number_or_zero(p[0])) % 0x1_0000_0000_0000_0000)
    } else {
        None
    }
}

/// A number of seconds as it is shown: its two largest units.
pub open spec fn uptime_text(total: nat) -> Seq<char> {
    if total >= 86400 {
        number::decimal(total / 86400) + "d"@ + number::decimal((total % 86400) / 3600) + "h"@
    } else if total >= 3600 {
        number::decimal(total / 3600) + "h"@ + number::decimal((total % 3600) / 60) + "m"@
    } else if total >= 60 {
        number::decimal(total / 60) + "m"@ + number::decimal(total % 60) + "s"@
    } else {
        number::decimal(total) + "s"@
    }
}

/// An elapsed time as it is shown; one in no known form is left as it is.
pub open spec fn etime_text(et: Seq<char>) -> Seq<char> {
    match elapsed_seconds(et) {
        Some(total) => uptime_text(total),
        None => et,
    }
}

fn read_or_zero(s: &[char]) -> (r: u64)
    ensures
        r == number_or_zero(s@),
{
    match read_u64(s) {
        Some(n) => n,
        None => 0,
    }
}

fn write_etime(et: &[char]) -> (r: String)
    ensures
        r@ == etime_text(et@),
{
    let (days, rest): (u64, &[char]) = match position_of(et, '-') {
        Some(i) => {
            let d = slice_subrange(et, 0, i);
            let t = slice_subrange(et, i + 1, et.len());
            assert(d@ =~= et@.take(i as int));
            assert(t@ =~= et@.skip(i + 1));
            (read_or_zero(d), t)
        },
        None => (0, et),
    };
    let parts = split_at_char(rest, ':');
    let ghost ps = text::split(rest@, ':');
    assert(ps.len() == parts@.len());
    assert(forall|k: int| 0 <= k < ps.len() ==> (#[trigger] ps[k]) == parts@[k]@);
    let day: u128 = days as u128 * 86400;
    let sum: u128 = if parts.len() == 3 {
        day + read_or_zero(parts[0]) as u128 * 3600 + read_or_zero(parts[1]) as u128 * 60
            + read_or_zero(parts[2]) as u128
    } else if parts.len() == 2 {
        day + read_or_zero(parts[0]) as u128 * 60 + read_or_zero(parts[1]) as u128
    } else if parts.len() == 1 {
        day + read_or_zero(parts[0]) as u128
    } else {
        return string_of(et);
    };
    let total: u64 = (sum % 0x1_0000_0000_0000_0000) as u64;
    let mut s = String::new();
    if total >= 86400 {
        push_decimal(&mut s, total / 86400);
        s.append("d");
        push_decimal(&mut s, (total % 86400) / 3600);
        s.append("h");
    } else if total >= 3600 {
        push_decimal(&mut s, total / 3600);
        s.append("h");
        push_decimal(&mut s, (total % 3600) / 60);
        s.append("m");
    } else if total >= 60 {
        push_decimal(&mut s, total / 60);
        s.append("m");
        push_decimal(&mut s, total % 60);
        s.append("s");
    } else {
        push_decimal(&mut s, total);
        s.append("s");
    }
    assert(s@ =~= uptime_text(total as nat));
    s
}

/// Writes an elapsed time as it is shown.
pub fn format_etime(et: &str) -> (r: String)
    ensures
        r@ == etime_text(et@),
{
    let cs = chars_of(et);
    write_etime(cs.as_slice())
}

// ---------------------------------------------------------------------------
// ps -o pid=,pcpu=,rss=,nlwp=,etime=,user=
// ---------------------------------------------------------------------------

/// The figures that a line of `ps` states for `pid`. The columns are process,
/// CPU, memory in kilobytes, threads (where `threads` says that the column is
/// there), elapsed time and user. The size in bytes wraps around, as it does
/// in a release build.
pub open spec fn stats_in(line: Seq<char>, pid: u32, threads: bool) -> Option<StatsView> {
    let p = text::words(line);
    let n: int = if threads {
        1
    } else {
        0
    };
    if p.len() >= 5 + n && number::parse_u32(p[0]) == Some(pid) {
        Some(
            StatsView {
                cpu: p[1] + "%"@,
                mem: mem_text((number_or_zero(p[2]) * 1024) % 0x1_0000_0000_0000_0000),
                uptime: etime_text(p[3 + n]),
                threads: if threads {
                    number::parse_u32(p[3])
                } else {
                    None
                },
                user: Some(p[4 + n]),
            },
        )
    } else {
        None
    }
}

/// The figures that the last line about `pid` states.
pub open spec fn stats_of(lines: Seq<Seq<char>>, pid: u32, threads: bool) -> Option<StatsView>
    decreases lines.len(),
{
    if lines.len() == 0 {
        None
    } else {
        match stats_in(lines.last(), pid, threads) {
            Some(s) => Some(s),
            None => stats_of(lines.drop_last(), pid, threads),
        }
    }
}

/// A local listener with the figures of its process, where they are known.
pub open spec fn with_stats(e: EntryView, lines: Seq<Seq<char>>, threads: bool) -> EntryView {
    match (e.docker, e.pid) {
        (None, Some(pid)) => match stats_of(lines, pid, threads) {
            Some(stats) => EntryView { stats, ..e },
            None => e,
        },
        _ => e,
    }
}

/// The processes of the local listeners, in order.
pub open spec fn local_pids_of(entries: Seq<EntryView>) -> Seq<u32>
    decreases entries.len(),
{
    if entries.len() == 0 {
        Seq::empty()
    } else {
        let before = local_pids_of(entries.drop_last());
        match (entries.last().docker, entries.last().pid) {
            (None, Some(pid)) => before.push(pid),
            _ => before,
        }
    }
}

/// Lists the processes whose figures are asked for.
pub fn local_pids(entries: &Vec<Entry>) -> (out: Vec<u32>)
    ensures
        out@ == local_pids_of(model::views(entries@)),
{
    let ghost es = model::views(entries@);
    let mut out: Vec<u32> = Vec::new();
    let mut i: usize = 0;
    assert(es.take(0) =~= Seq::<EntryView>::empty());
    while i < entries.len()
        invariant
            i <= entries@.len(),
            es == model::views(entries@),
            out@ == local_pids_of(es.take(i as int)),
        decreases entries@.len() - i,
    {
        assert(es.take(i + 1).drop_last() =~= es.take(i as int));
        assert(es.take(i + 1).last() == entries@[i as int]@);
        if entries[i].docker.is_none() {
            if let Some(pid) = entries[i].pid {
                out.push(pid);
            }
        }
        i += 1;
    }
    assert(es.take(i as int) =~= es);
    out
}

fn find_stats(lines: &Vec<&[char]>, pid: u32, threads: bool) -> (r: Option<Stats>)
    ensures
        match r {
            Some(s) => stats_of(text::pieces(lines@), pid, threads) == Some(s@),
            None => stats_of(text::pieces(lines@), pid, threads) is None,
        },
{
    let ghost all = text::pieces(lines@);
    let n: usize = if threads {
        1
    } else {
        0
    };
    let mut i: usize = lines.len();
    assert(all.take(i as int) =~= all);
    while i > 0
        invariant
            i <= lines@.len(),
            all == text::pieces(lines@),
            n == (if threads {
                1int
            } else {
                0int
            }),
            stats_of(all, pid, threads) == stats_of(all.take(i as int), pid, threads),
        decreases i,
    {
        i -= 1;
        let line = lines[i];
        assert(all.take(i + 1).drop_last() =~= all.take(i as int));
        assert(all.take(i + 1).last() == line@);
        let p = split_words(line);
        let ghost ps = text::words(line@);
        assert(ps.len() == p@.len());
        assert(forall|k: int| 0 <= k < ps.len() ==> (#[trigger] ps[k]) == p@[k]@);
        if p.len() >= 5 + n {
            if let Some(q) = read_u32(p[0]) {
                if q == pid {
                    let mut cpu = string_of(p[1]);
                    cpu.append("%");
                    let kb: u64 = read_or_zero(p[2]);
                    let bytes: u64 = ((kb as u128 * 1024) % 0x1_0000_0000_0000_0000) as u64;
                    let count: Option<u32> = if threads {
                        read_u32(p[3])
                    } else {
                        None
                    };
                    let s = Stats {
                        cpu,
                        mem: format_mem(bytes),
                        uptime: write_etime(p[3 + n]),
                        threads: count,
                        user: Some(string_of(p[4 + n])),
                    };
                    assert(stats_in(line@, pid, threads) == Some(s@));
                    return Some(s);
                }
            }
        }
    }
    None
}

/// Gives every local listener the figures that the output of `ps` states for
/// its process. `threads` says whether the thread column is there.
pub fn apply_local_stats(entries: &mut Vec<Entry>, stdout: &str, threads: bool)
    ensures
        model::views(final(entries)@) == model::views(old(entries)@).map_values(
            |e: EntryView| with_stats(e, text::lines(stdout@), threads),
        ),
{
    let cs = chars_of(stdout);
    let lines = split_lines(cs.as_slice());
    let ghost ls = text::lines(stdout@);
    let ghost before = model::views(entries@);
    let n: usize = entries.len();
    let mut i: usize = 0;
    while i < n
        invariant
            n == entries@.len(),
            n == before.len(),
            i <= n,
            ls == text::pieces(lines@),
            forall|k: int|
                0 <= k < i ==> (#[trigger] entries@[k])@ == with_stats(before[k], ls, threads),
            forall|k: int| i <= k < n ==> (#[trigger] entries@[k])@ == before[k],
        decreases n - i,
    {
        let ghost old_e = entries@[i as int]@;
        if entries[i].docker.is_none() {
            if let Some(pid) = entries[i].pid {
                if let Some(s) = find_stats(&lines, pid, threads) {
                    let e = &mut entries[i];
                    e.stats = s;
                }
            }
        }
        assert(entries@[i as int]@ =~= with_stats(old_e, ls, threads));
        i += 1;
    }
    assert(model::views(entries@) =~= before.map_values(
        |e: EntryView| with_stats(e, ls, threads),
    ));
}

/// Gives every local listener the figures that came of `ps` for its process.
pub fn enrich_local_stats(entries: &mut Vec<Entry>, result: &CommandResult, threads: bool)
    ensures
        model::views(final(entries)@) == model::views(old(entries)@).map_values(
            |e: EntryView| with_stats(e, text::lines(command::written(result@)), threads),
        ),
{
    let t = output_text(result);
    apply_local_stats(entries, t.as_str(), threads);
}

} // verus!
