//! What holds of the figures that are shown.

use vstd::prelude::*;
use crate::model::EntryView;
use crate::number;
use crate::stats;
use crate::text;
use crate::text_laws;

verus! {

// ---------------------------------------------------------------------------
// Uptime
// ---------------------------------------------------------------------------

/// A number of two units as it is shown.
pub open spec fn two_units(a: nat, big: Seq<char>, b: nat, small: Seq<char>) -> Seq<char> {
    number::decimal(a) + big + number::decimal(b) + small
}

/// An uptime is shown to within its smaller unit, cut off and never rounded
/// up: in days and hours from a day on, else in hours and minutes from an
/// hour on, else in minutes and seconds from a minute on, else in seconds.
pub proof fn law_uptime_is_exact_to_its_unit(total: nat, a: nat, b: nat)
    ensures
        a > 0 && b < 24 && (24 * a + b) * 3600 <= total < (24 * a + b + 1) * 3600
            ==> stats::uptime_text(total) == two_units(a, "d"@, b, "h"@),
        0 < a < 24 && b < 60 && (60 * a + b) * 60 <= total < (60 * a + b + 1) * 60
            ==> stats::uptime_text(total) == two_units(a, "h"@, b, "m"@),
        0 < a < 60 && b < 60 && total == 60 * a + b ==> stats::uptime_text(total) == two_units(
            a,
            "m"@,
            b,
            "s"@,
        ),
        total < 60 ==> stats::uptime_text(total) == number::decimal(total) + "s"@,
{
    if a > 0 && b < 24 && (24 * a + b) * 3600 <= total < (24 * a + b + 1) * 3600 {
        assert(total / 86400 == a && (total % 86400) / 3600 == b) by (nonlinear_arith)
            requires
                b < 24,
                (24 * a + b) * 3600 <= total < (24 * a + b + 1) * 3600,
        ;
    }
    if 0 < a < 24 && b < 60 && (60 * a + b) * 60 <= total < (60 * a + b + 1) * 60 {
        assert(total / 3600 == a && (total % 3600) / 60 == b) by (nonlinear_arith)
            requires
                b < 60,
                (60 * a + b) * 60 <= total < (60 * a + b + 1) * 60,
        ;
    }
    if 0 < a < 60 && b < 60 && total == 60 * a + b {
        assert(total / 60 == a && total % 60 == b);
    }
}

/// The seconds of an elapsed time are those of its days, hours, minutes and
/// seconds, in each of the forms that `ps` writes.
pub proof fn law_elapsed_time_is_read(
    days: Seq<char>,
    h: Seq<char>,
    m: Seq<char>,
    s: Seq<char>,
    d: u64,
    hn: u64,
    mn: u64,
    sn: u64,
)
    requires
        number::parse_u64(days) == Some(d),
        number::parse_u64(h) == Some(hn),
        number::parse_u64(m) == Some(mn),
        number::parse_u64(s) == Some(sn),
        d * 86400 + hn * 3600 + mn * 60 + sn <= u64::MAX,
    ensures
        stats::elapsed_seconds(days + seq!['-'] + (h + seq![':'] + (m + seq![':'] + s))) == Some(
            (d * 86400 + hn * 3600 + mn * 60 + sn) as nat,
        ),
        stats::elapsed_seconds(h + seq![':'] + (m + seq![':'] + s)) == Some(
            (hn * 3600 + mn * 60 + sn) as nat,
        ),
        stats::elapsed_seconds(m + seq![':'] + s) == Some((mn * 60 + sn) as nat),
        stats::elapsed_seconds(s) == Some(sn as nat),
        stats::etime_text(days + seq!['-'] + (h + seq![':'] + (m + seq![':'] + s)))
            == stats::uptime_text((d * 86400 + hn * 3600 + mn * 60 + sn) as nat),
        stats::etime_text(h + seq![':'] + (m + seq![':'] + s)) == stats::uptime_text(
            (hn * 3600 + mn * 60 + sn) as nat,
        ),
        stats::etime_text(m + seq![':'] + s) == stats::uptime_text((mn * 60 + sn) as nat),
        stats::etime_text(s) == stats::uptime_text(sn as nat),
{
    let ms = m + seq![':'] + s;
    let hms = h + seq![':'] + ms;
    lemma_number_lacks(days, '-');
    lemma_number_lacks(h, '-');
    lemma_number_lacks(h, ':');
    lemma_number_lacks(m, '-');
    lemma_number_lacks(m, ':');
    lemma_number_lacks(s, '-');
    lemma_number_lacks(s, ':');
    text_laws::lemma_first(days, '-', hms);
    lemma_lacks_join(m, ':', s, '-');
    lemma_lacks_join(h, ':', ms, '-');
    text_laws::lemma_none(s, '-');
    text_laws::lemma_none(ms, '-');
    text_laws::lemma_none(hms, '-');
    let p3 = seq![h, m, s];
    let p2 = seq![m, s];
    let p1 = seq![s];
    assert(p3.skip(1) =~= p2);
    assert(p2.skip(1) =~= p1);
    assert(text_laws::joined_by(p1, ':') == s);
    assert(text_laws::joined_by(p2, ':') == ms);
    assert(text_laws::joined_by(p3, ':') == hms);
    text_laws::law_split_reads_back(p1, ':');
    text_laws::law_split_reads_back(p2, ':');
    text_laws::law_split_reads_back(p3, ':');
}

/// A text that is read as a number holds no separator.
pub proof fn lemma_number_lacks(s: Seq<char>, c: char)
    requires
        number::parse_u64(s) is Some || number::parse_u32(s) is Some,
        !('0' <= c <= '9'),
        c != '+',
    ensures
        !s.contains(c),
{
    text_laws::law_only_digits_are_numbers(s);
    if s.contains(c) {
        let i = choose|i: int| 0 <= i < s.len() && s[i] == c;
        assert(s[i] == c);
    }
}

/// A joined text holds nothing that neither its parts nor its separator hold.
pub proof fn lemma_lacks_join(a: Seq<char>, sep: char, b: Seq<char>, c: char)
    requires
        !a.contains(c),
        !b.contains(c),
        sep != c,
    ensures
        !(a + seq![sep] + b).contains(c),
{
    let w = a + seq![sep] + b;
    if w.contains(c) {
        let i = choose|i: int| 0 <= i < w.len() && w[i] == c;
        if i < a.len() {
            assert(a[i] == c);
        } else if i > a.len() {
            assert(b[i - a.len() - 1] == c);
        }
    }
}

// ---------------------------------------------------------------------------
// Memory
// ---------------------------------------------------------------------------

/// A size below a mebibyte is shown in whole kibibytes, cut off, and one below
/// a kibibyte in bytes.
pub proof fn law_small_sizes_are_cut_off(bytes: nat, k: nat)
    ensures
        bytes < 1024 ==> stats::mem_text(bytes) == number::decimal(bytes) + "B"@,
        1 <= k < 1024 && 1024 * k <= bytes < 1024 * (k + 1) ==> stats::mem_text(bytes)
            == number::decimal(k) + "K"@,
{
    if 1 <= k < 1024 && 1024 * k <= bytes < 1024 * (k + 1) {
        assert(bytes / 1024 == k);
    }
}

/// A size below a gibibyte is shown as the nearest number of mebibytes, and
/// halfway between two as the even one.
pub proof fn law_sizes_are_nearest_mebibytes(bytes: nat, m: nat)
    requires
        1048576 <= bytes < 1073741824,
        2 * bytes < (2 * m + 1) * 1048576 || (2 * bytes == (2 * m + 1) * 1048576 && m % 2 == 0),
        2 * bytes + 1048576 > 2 * m * 1048576 || (2 * bytes + 1048576 == 2 * m * 1048576 && m % 2
            == 0),
    ensures
        stats::mem_text(bytes) == number::decimal(m) + "M"@,
{
    lemma_nearest(bytes, 1048576, m);
}

/// A size from a gibibyte on is shown as the nearest number of tenths of
/// gibibytes, and halfway between two as the even one, as long as a
/// double-precision number holds it exactly.
pub proof fn law_sizes_are_nearest_tenths(bytes: nat, t: nat)
    requires
        1073741824 <= bytes < 0x20_0000_0000_0000,
        20 * bytes < (2 * t + 1) * 1073741824 || (20 * bytes == (2 * t + 1) * 1073741824 && t % 2
            == 0),
        20 * bytes + 1073741824 > 2 * t * 1073741824 || (20 * bytes + 1073741824 == 2 * t
            * 1073741824 && t % 2 == 0),
    ensures
        stats::mem_text(bytes) == number::decimal(t / 10) + "."@ + number::decimal(t % 10) + "G"@,
{
    stats::law_mem_is_close(bytes);
    lemma_nearest(10 * bytes, 1073741824, t);
}

proof fn lemma_nearest(n: nat, d: nat, m: nat)
    requires
        d > 0,
        2 * n < (2 * m + 1) * d || (2 * n == (2 * m + 1) * d && m % 2 == 0),
        2 * n + d > 2 * m * d || (2 * n + d == 2 * m * d && m % 2 == 0),
    ensures
        stats::round_even(n, d) == m,
{
    let q = n / d;
    let r = n % d;
    assert(n == q * d + r && r < d) by (nonlinear_arith)
        requires
            d > 0,
            q == n / d,
            r == n % d,
    ;
    assert((2 * m + 1) * d == 2 * (m * d) + d) by (nonlinear_arith);
    assert(2 * m * d == 2 * (m * d)) by (nonlinear_arith);
    assert(q == m || q + 1 == m) by (nonlinear_arith)
        requires
            d > 0,
            r < d,
            2 * (q * d) + 2 * r <= 2 * (m * d) + d,
            2 * (q * d) + 2 * r + d >= 2 * (m * d),
    ;
    assert((q + 1) * d == q * d + d) by (nonlinear_arith);
}

// ---------------------------------------------------------------------------
// Lines of ps
// ---------------------------------------------------------------------------

/// The figures of a process are those of the line that names it: its CPU, its
/// memory from kibibytes, its threads where there is a column for them, its
/// uptime and its user.
pub proof fn law_ps_line_is_read(
    pid: u32,
    cpu: Seq<char>,
    kb: u64,
    threads: u32,
    etime: Seq<char>,
    user: Seq<char>,
    gaps: Seq<Seq<char>>,
    end: Seq<char>,
    wide: bool,
    other: u32,
)
    requires
        kb * 1024 <= u64::MAX,
        text_laws::apart(ps_fields(pid, cpu, kb, threads, etime, user, wide), gaps, end),
    ensures
        ({
            let line = text_laws::laid_out(
                ps_fields(pid, cpu, kb, threads, etime, user, wide),
                gaps,
                end,
            );
            let s = stats::stats_in(line, other, wide);
            &&& s is Some <==> other == pid
            &&& s is Some ==> {
                let v = s.unwrap();
                &&& v.cpu == cpu + "%"@
                &&& v.mem == stats::mem_text((kb * 1024) as nat)
                &&& v.uptime == stats::etime_text(etime)
                &&& v.threads == if wide {
                    Some(threads)
                } else {
                    None
                }
                &&& v.user == Some(user)
            }
        }),
{
    let f = ps_fields(pid, cpu, kb, threads, etime, user, wide);
    text_laws::law_words_read_back(f, gaps, end);
    text_laws::law_numbers_read_back(pid as nat);
    text_laws::law_numbers_read_back(kb as nat);
    text_laws::law_numbers_read_back(threads as nat);
    let w = f + text::words(end);
    assert(forall|k: int| 0 <= k < f.len() ==> w[k] == f[k]);
}

/// The fields of a line of `ps`; a wide line has the thread count.
pub open spec fn ps_fields(
    pid: u32,
    cpu: Seq<char>,
    kb: u64,
    threads: u32,
    etime: Seq<char>,
    user: Seq<char>,
    wide: bool,
) -> Seq<Seq<char>> {
    if wide {
        seq![
            number::decimal(pid as nat),
            cpu,
            number::decimal(kb as nat),
            number::decimal(threads as nat),
            etime,
            user,
        ]
    } else {
        seq![number::decimal(pid as nat), cpu, number::decimal(kb as nat), etime, user]
    }
}

/// Of several lines about a process the last counts, wherever it stands, and
/// lines about others do not matter.
pub proof fn law_last_line_counts(
    before: Seq<Seq<char>>,
    line: Seq<char>,
    behind: Seq<Seq<char>>,
    pid: u32,
    threads: bool,
)
    requires
        stats::stats_in(line, pid, threads) is Some,
        forall|i: int|
            0 <= i < behind.len() ==> stats::stats_in(#[trigger] behind[i], pid, threads) is None,
    ensures
        stats::stats_of(before.push(line) + behind, pid, threads) == stats::stats_in(
            line,
            pid,
            threads,
        ),
    decreases behind.len(),
{
    let all = before.push(line) + behind;
    if behind.len() == 0 {
        assert(all =~= before.push(line));
        assert(all.last() == line);
    } else {
        let b = behind.drop_last();
        assert(all.drop_last() =~= before.push(line) + b);
        assert(all.last() == behind[behind.len() - 1]);
        assert forall|i: int| 0 <= i < b.len() implies stats::stats_in(
            #[trigger] b[i],
            pid,
            threads,
        ) is None by {
            assert(b[i] == behind[i]);
        }
        law_last_line_counts(before, line, b, pid, threads);
    }
}

/// A local listener gets the figures of its process, where there are any; a
/// container and a listener of an unknown process are left as they are, and
/// so is everything but the figures.
pub proof fn law_figures_go_to_their_process(e: EntryView, lines: Seq<Seq<char>>, threads: bool)
    ensures
        ({
            let r = stats::with_stats(e, lines, threads);
            let known = e.docker is None && e.pid is Some && stats::stats_of(
                lines,
                e.pid.unwrap(),
                threads,
            ) is Some;
            &&& known ==> Some(r.stats) == stats::stats_of(lines, e.pid.unwrap(), threads)
            &&& !known ==> r == e
            &&& r.port == e.port && r.proto == e.proto && r.pid == e.pid && r.docker == e.docker
            &&& r.cwd == e.cwd && r.process == e.process && r.addr == e.addr
        }),
{
}

/// The processes asked for are exactly those of local listeners.
pub proof fn law_local_processes_are_asked_for(es: Seq<EntryView>, pid: u32)
    ensures
        stats::local_pids_of(es).contains(pid) <==> exists|i: int|
            0 <= i < es.len() && (#[trigger] es[i]).docker is None && es[i].pid == Some(pid),
    decreases es.len(),
{
    let all = stats::local_pids_of(es);
    if es.len() > 0 {
        let early = es.drop_last();
        let before = stats::local_pids_of(early);
        law_local_processes_are_asked_for(early, pid);
        if before.contains(pid) {
            let k = choose|k: int| 0 <= k < before.len() && before[k] == pid;
            assert(all[k] == pid);
            let i = choose|i: int|
                0 <= i < early.len() && (#[trigger] early[i]).docker is None && early[i].pid
                    == Some(pid);
            assert(es[i] == early[i]);
        }
        if all.contains(pid) && !before.contains(pid) {
            let k = choose|k: int| 0 <= k < all.len() && all[k] == pid;
            if k < before.len() {
                assert(before[k] == pid);
            }
            assert(es[es.len() - 1].pid == Some(pid));
        }
        if exists|i: int|
            0 <= i < es.len() && (#[trigger] es[i]).docker is None && es[i].pid == Some(pid) {
            let i = choose|i: int|
                0 <= i < es.len() && (#[trigger] es[i]).docker is None && es[i].pid == Some(pid);
            if i < early.len() {
                assert(early[i] == es[i]);
            } else {
                assert(all[before.len() as int] == pid);
            }
        }
    } else {
        assert(!all.contains(pid));
    }
}

/// What is no number counts as zero in an elapsed time, and so does one too
/// large to be a count of seconds; a time with too many parts is shown as it
/// is.
pub proof fn law_unreadable_times(s: Seq<char>, i: int, n: nat, parts: Seq<Seq<char>>)
    requires
        n > u64::MAX,
        parts.len() > 3,
        forall|k: int|
            0 <= k < parts.len() ==> !(#[trigger] parts[k]).contains(':') && !parts[k].contains(
                '-',
            ),
    ensures
        0 < i < s.len() && !('0' <= s[i] <= '9') ==> stats::number_or_zero(s) == 0,
        s.len() == 0 ==> stats::number_or_zero(s) == 0,
        stats::number_or_zero(number::decimal(n)) == 0,
        stats::etime_text(text_laws::joined_by(parts, ':')) == text_laws::joined_by(parts, ':'),
{
    if number::parse_u64(s) is Some {
        text_laws::law_only_digits_are_numbers(s);
    }
    text_laws::law_numbers_read_back(n);
    text_laws::law_split_reads_back(parts, ':');
    lemma_join_lacks(parts, '-');
    text_laws::lemma_none(text_laws::joined_by(parts, ':'), '-');
}

proof fn lemma_join_lacks(parts: Seq<Seq<char>>, c: char)
    requires
        c != ':',
        forall|k: int| 0 <= k < parts.len() ==> !(#[trigger] parts[k]).contains(c),
    ensures
        !text_laws::joined_by(parts, ':').contains(c),
    decreases parts.len(),
{
    if parts.len() == 1 {
        assert(!parts[0].contains(c));
    } else if parts.len() > 1 {
        let rest = parts.skip(1);
        assert forall|k: int| 0 <= k < rest.len() implies !(#[trigger] rest[k]).contains(c) by {
            assert(rest[k] == parts[k + 1]);
        }
        lemma_join_lacks(rest, c);
        assert(!parts[0].contains(c));
        let (a, b) = (parts[0], text_laws::joined_by(rest, ':'));
        let s = a + seq![':'] + b;
        if s.contains(c) {
            let i = choose|i: int| 0 <= i < s.len() && s[i] == c;
            if i < a.len() {
                assert(a[i] == c);
            } else if i > a.len() {
                assert(b[i - a.len() - 1] == c);
            }
        }
    }
}

/// A size that takes at most fifty-three bits is its own double-precision
/// number.
pub proof fn law_small_doubles_are_exact(n: nat)
    requires
        n < 0x20_0000_0000_0000,
    ensures
        stats::nearest_double(n) == n,
{
    assert(n / 1 == n && n % 1 == 0);
    assert(stats::double_unit(n, 1) == 1);
    assert(stats::round_even(n, 1) == n);
}

/// The double-precision number nearest to a size is a multiple of the
/// distance between such numbers there, at most half of it away.
pub proof fn law_doubles_are_nearest(n: nat)
    requires
        n < 0x40_0000_0000_0000,
        n >= 0x20_0000_0000_0000,
    ensures
        stats::nearest_double(n) % 2 == 0,
        n <= stats::nearest_double(n) + 1,
        stats::nearest_double(n) <= n + 1,
        n % 2 == 0 ==> stats::nearest_double(n) == n,
        n % 4 == 1 ==> stats::nearest_double(n) == n - 1,
        n % 4 == 3 ==> stats::nearest_double(n) == n + 1,
{
    assert(stats::double_unit(n, 2) == 2);
    assert(stats::double_unit(n, 1) == 2);
    let r = stats::round_even(n, 2);
    assert(n == 2 * (n / 2) + n % 2);
    assert(stats::nearest_double(n) == r * 2);
}

} // verus!
