//! What holds of the whole dashboard.

use vstd::prelude::*;
use crate::args::ModeView;
use crate::listing;
use crate::model::{DockerView, EntryView};
use crate::number;
use crate::order;
use crate::order::RowOrder;
use crate::table;
use crate::text;
use crate::text_laws;
use crate::width;

verus! {

/// The column at which the first `k` columns end: their widths and two
/// columns of space between any two of them.
pub open spec fn end_of(widths: Seq<nat>, k: nat) -> nat
    decreases k,
{
    if k == 0 {
        0
    } else if k == 1 {
        widths[0]
    } else {
        end_of(widths, (k - 1) as nat) + 2 + widths[k - 1]
    }
}

/// Whether every cell fits in its column.
pub open spec fn fits(cells: Seq<Seq<char>>, widths: Seq<nat>) -> bool {
    forall|k: int| 0 <= k < cells.len() ==> width::text_width(#[trigger] cells[k]) <= widths[k]
}

/// A column is as wide as its head and as each of its cells at least.
proof fn lemma_column_width(rows: Seq<Seq<Seq<char>>>, k: int)
    ensures
        width::text_width(table::headers()[k]) <= table::column_width(rows, k),
        forall|i: int|
            0 <= i < rows.len() ==> width::text_width((#[trigger] rows[i])[k])
                <= table::column_width(rows, k),
    decreases rows.len(),
{
    if rows.len() > 0 {
        let front = rows.drop_last();
        lemma_column_width(front, k);
        assert forall|i: int| 0 <= i < rows.len() implies width::text_width((#[trigger] rows[i])[k])
            <= table::column_width(rows, k) by {
            if i < rows.len() - 1 {
                assert(front[i] == rows[i]);
            }
        }
    }
}

/// The first `k` cells of a line, padded, end where their columns end.
proof fn lemma_joined_width(cells: Seq<Seq<char>>, widths: Seq<nat>, k: nat)
    requires
        k <= cells.len(),
        fits(cells, widths),
    ensures
        width::text_width(table::joined(cells.take(k as int), widths)) == end_of(widths, k),
    decreases k,
{
    if k > 0 {
        let part = cells.take(k as int);
        let m = (k - 1) as nat;
        lemma_joined_width(cells, widths, m);
        assert(part.drop_last() =~= cells.take(m as int));
        assert(part.last() == cells[m as int]);
        let cell = width::padded(cells[m as int], widths[m as int]);
        width::law_padding(cells[m as int], widths[m as int]);
        let before = table::joined(cells.take(m as int), widths);
        reveal_strlit("  ");
        assert("  "@ =~= width::repeated(' ', 2));
        assert(width::char_width(' ') == 1);
        width::lemma_width_repeated(' ', 2);
        width::lemma_width_add(before, "  "@);
        width::lemma_width_add(before + "  "@, cell);
    }
}

/// A line starts with its first `k` cells, and its next cell stands whole
/// behind them.
proof fn lemma_joined_prefix(cells: Seq<Seq<char>>, widths: Seq<nat>, k: nat, n: nat)
    requires
        k <= n <= cells.len(),
    ensures
        table::joined(cells.take(k as int), widths).is_prefix_of(
            table::joined(cells.take(n as int), widths),
        ),
    decreases n,
{
    if k < n {
        let m = (n - 1) as nat;
        lemma_joined_prefix(cells, widths, k, m);
        let a = table::joined(cells.take(k as int), widths);
        let b = table::joined(cells.take(m as int), widths);
        let c = table::joined(cells.take(n as int), widths);
        assert(cells.take(n as int).drop_last() =~= cells.take(m as int));
        if n == 1 {
            assert(a =~= Seq::<char>::empty());
        } else {
            assert(a =~= b.take(a.len() as int));
            assert(b =~= c.take(b.len() as int));
            assert(a =~= c.take(a.len() as int));
        }
    }
}

/// The widths that the rows `es` give the columns.
pub open spec fn widths_of(es: Seq<EntryView>, home: Option<Seq<char>>) -> Seq<nat> {
    table::column_widths(table::all_cells(es, home))
}

/// The columns of the heads, of the dashes and of every row end at the same
/// place on the screen, whatever script the cells are in.
pub proof fn law_columns_are_aligned(
    es: Seq<EntryView>,
    home: Option<Seq<char>>,
    i: int,
    k: nat,
)
    requires
        0 <= i < es.len(),
        k <= 8,
    ensures
        ({
            let ws = widths_of(es, home);
            let row = table::row_cells(es[i], home);
            &&& width::text_width(table::joined(row.take(k as int), ws)) == end_of(ws, k)
            &&& width::text_width(table::joined(table::headers().take(k as int), ws)) == end_of(
                ws,
                k,
            )
            &&& width::text_width(table::joined(table::dashes(ws).take(k as int), ws)) == end_of(
                ws,
                k,
            )
            &&& table::joined(row.take(k as int), ws).is_prefix_of(table::joined(row, ws))
            &&& table::joined(table::headers().take(k as int), ws).is_prefix_of(
                table::joined(table::headers(), ws),
            )
            &&& table::joined(table::dashes(ws).take(k as int), ws).is_prefix_of(
                table::joined(table::dashes(ws), ws),
            )
        }),
{
    let ws = widths_of(es, home);
    let rows = table::all_cells(es, home);
    let row = table::row_cells(es[i], home);
    assert(rows[i] == row);
    assert forall|j: int| 0 <= j < 8 implies width::text_width(#[trigger] row[j]) <= ws[j] by {
        lemma_column_width(rows, j);
        assert(width::text_width(rows[i][j]) <= ws[j]);
    }
    let heads = table::headers();
    assert forall|j: int| 0 <= j < 8 implies width::text_width(#[trigger] heads[j]) <= ws[j] by {
        lemma_column_width(rows, j);
    }
    let marks = table::dashes(ws);
    assert(marks.len() == 8);
    assert forall|j: int| 0 <= j < 8 implies width::text_width(#[trigger] marks[j]) <= ws[j] by {
        assert(width::char_width('-') == 1);
        width::lemma_width_repeated('-', ws[j]);
    }
    lemma_joined_width(row, ws, k);
    lemma_joined_width(heads, ws, k);
    lemma_joined_width(marks, ws, k);
    lemma_joined_prefix(row, ws, k, 8);
    lemma_joined_prefix(heads, ws, k, 8);
    lemma_joined_prefix(marks, ws, k, 8);
    assert(row.take(8) =~= row);
    assert(heads.take(8) =~= heads);
    assert(marks.take(8) =~= marks);
}

/// Where cell `k` of a line starts.
pub open spec fn start_of(cells: Seq<Seq<char>>, widths: Seq<nat>, k: nat) -> nat {
    if k == 0 {
        0
    } else {
        table::joined(cells.take(k as int), widths).len() + 2
    }
}

/// No cell is ever cut: each one, the job with its path among them, stands
/// whole in the line of its row.
pub proof fn law_cells_are_whole(
    es: Seq<EntryView>,
    home: Option<Seq<char>>,
    i: int,
    k: nat,
)
    requires
        0 <= i < es.len(),
        k < 8,
    ensures
        ({
            let ws = widths_of(es, home);
            let row = table::row_cells(es[i], home);
            text::stands_at(table::joined(row, ws), row[k as int], start_of(row, ws, k) as int)
        }),
        table::row_cells(es[i], home)[4] == table::job_text(es[i], home),
{
    let ws = widths_of(es, home);
    let row = table::row_cells(es[i], home);
    let n = (k + 1) as nat;
    let cell = row[k as int];
    lemma_joined_prefix(row, ws, n, 8);
    assert(row.take(8) =~= row);
    let line = table::joined(row, ws);
    let part = table::joined(row.take(n as int), ws);
    assert(row.take(n as int).drop_last() =~= row.take(k as int));
    assert(row.take(n as int).last() == cell);
    width::law_padding(cell, ws[k as int]);
    let p = width::padded(cell, ws[k as int]);
    reveal_strlit("  ");
    let at = start_of(row, ws, k) as int;
    assert(p.take(cell.len() as int) =~= cell);
    assert(part.subrange(at, at + p.len()) =~= p);
    assert(part =~= line.take(part.len() as int));
    assert(line.subrange(at, at + cell.len()) =~= cell) by {
        assert forall|j: int| 0 <= j < cell.len() implies line.subrange(
            at,
            at + cell.len(),
        )[j] == cell[j] by {
            assert(line.take(part.len() as int)[at + j] == part[at + j]);
            assert(part.subrange(at, at + p.len())[j] == p[j]);
            assert(p.take(cell.len() as int)[j] == cell[j]);
        }
    }
}

/// Each container group is one block with one header.
pub proof fn law_one_header_per_group(
    s: Seq<EntryView>,
    mode: ModeView,
    i: int,
    j: int,
)
    requires
        0 <= i < j < listing::arranged(s, mode).len(),
        table::docker_group(listing::arranged(s, mode)[i]) is Some,
        table::docker_group(listing::arranged(s, mode)[i]) == table::docker_group(
            listing::arranged(s, mode)[j],
        ),
        order::container_name(listing::arranged(s, mode)[i]).len() > 0,
    ensures
        !table::starts_block(listing::arranged(s, mode), j),
{
    let r = listing::arranged(s, mode);
    listing::law_groups_are_blocks(s, mode, i, j - 1, j);
    order::law_sorted_is_in_order(
        s.filter(|e: EntryView| listing::shown(e, mode)),
        RowOrder::Groups,
    );
    if i < j - 1 {
        assert(!order::before(r[j - 1], r[i], RowOrder::Groups));
        if r[j - 1].docker is None {
            assert(order::text_before(
                order::container_name(r[j - 1]),
                order::container_name(r[i]),
            ));
        }
    }
}

/// Whether row `i` is the first of a container group, so that a header stands
/// above it.
pub open spec fn opens_group(es: Seq<EntryView>, i: int) -> bool {
    &&& es[i].docker is Some
    &&& i == 0 || es[i - 1].docker is None || order::group_of(es[i - 1]) != order::group_of(es[i])
}

/// Where the line of row `i` stands: below the head of the table, the rows
/// before it, and the headers with the blank lines above them.
pub open spec fn line_of(es: Seq<EntryView>, i: int) -> int
    decreases i,
{
    let above = if i <= 0 {
        1
    } else {
        line_of(es, i - 1)
    };
    if opens_group(es, i) {
        if i <= 0 {
            above + 2
        } else {
            above + 3
        }
    } else {
        above + 1
    }
}

/// Every row has its line, in order and with nothing between the rows but the
/// headers of container groups, each of which has a blank line above it
/// unless it is the first line.
pub proof fn law_every_row_has_its_line(es: Seq<EntryView>, home: Option<Seq<char>>, i: int)
    requires
        0 <= i < es.len(),
    ensures
        ({
            let t = table::table_of(es, home);
            let l = line_of(es, i);
            &&& 2 <= l < t.len()
            &&& t[l] == table::joined(table::row_cells(es[i], home), widths_of(es, home))
            &&& opens_group(es, i) ==> t[l - 1] == "[ "@ + order::group_of(es[i]) + " ]"@
            &&& opens_group(es, i) && i > 0 ==> t[l - 2].len() == 0
            &&& i == es.len() - 1 ==> t.len() == l + 1
        }),
{
    let ws = widths_of(es, home);
    let t = table::table_of(es, home);
    let body = table::body_lines(es, home, ws, es.len());
    lemma_body(es, home, ws, i, es.len());
    let l = line_of(es, i);
    assert(t[l] == body[l - 2]);
    if opens_group(es, i) {
        assert(t[l - 1] == body[l - 3]);
        if i > 0 {
            assert(t[l - 2] == body[l - 4]);
        }
    }
}

proof fn lemma_body(
    es: Seq<EntryView>,
    home: Option<Seq<char>>,
    ws: Seq<nat>,
    i: int,
    n: nat,
)
    requires
        0 <= i < n <= es.len(),
    ensures
        ({
            let body = table::body_lines(es, home, ws, n);
            let l = line_of(es, i) - 2;
            &&& 0 <= l < body.len()
            &&& body[l] == table::joined(table::row_cells(es[i], home), ws)
            &&& opens_group(es, i) ==> l >= 1 && body[l - 1] == "[ "@ + order::group_of(es[i])
                + " ]"@
            &&& opens_group(es, i) && i > 0 ==> l >= 2 && body[l - 2].len() == 0
            &&& body.len() == line_of(es, n - 1) - 1
        }),
    decreases n,
{
    let m = (n - 1) as nat;
    let front = table::body_lines(es, home, ws, m);
    let head = table::block_lines(es, m as int);
    let body = table::body_lines(es, home, ws, n);
    let line = table::joined(table::row_cells(es[m as int], home), ws);
    assert(body == front + head + seq![line]);
    assert(opens_group(es, m as int) == table::starts_block(es, m as int));
    if m > 0 {
        lemma_body(es, home, ws, m - 1, m);
        assert(front.len() == line_of(es, m - 1) - 1);
    } else {
        assert(front.len() == 0);
    }
    if i < m {
        lemma_body(es, home, ws, i, m);
        let l = line_of(es, i) - 2;
        assert(body[l] == front[l]);
        if opens_group(es, i) {
            assert(body[l - 1] == front[l - 1]);
            if i > 0 {
                assert(body[l - 2] == front[l - 2]);
            }
        }
    } else {
        assert(body[(front.len() + head.len()) as int] == line);
        if opens_group(es, i) {
            assert(body[front.len() + head.len() - 1] == head[head.len() - 1]);
            if i > 0 {
                assert(body[front.len() as int] == head[0]);
            }
        }
    }
}

/// A row shows the protocol, the port, the process and the figures of its
/// listener; a container stands by its name, a process by its command and its
/// directory, and a dash for what is unknown.
pub proof fn law_row_shows_its_listener(
    e: EntryView,
    d: DockerView,
    pid: u32,
    home: Option<Seq<char>>,
)
    ensures
        ({
            let row = table::row_cells(e, home);
            &&& row.len() == 8
            &&& e.proto is Tcp ==> row[0] == "tcp"@
            &&& e.proto is Udp ==> row[0] == "udp"@
            &&& number::parse_u32(row[1]) == Some(e.port)
            &&& e.pid == Some(pid) ==> number::parse_u32(row[2]) == Some(pid)
            &&& e.pid is None ==> row[2] == "-"@
            &&& e.docker is None ==> row[3] == e.process && row[4] == table::shortened(e.cwd, home)
            &&& e.docker == Some(d) ==> row[3] == "docker"@ && row[4] == d.name
            &&& e.stats.cpu.len() > 0 ==> row[5] == e.stats.cpu
            &&& e.stats.mem.len() > 0 ==> row[6] == e.stats.mem
            &&& e.stats.uptime.len() > 0 ==> row[7] == e.stats.uptime
            &&& e.stats.cpu.len() == 0 ==> row[5] == "-"@
            &&& e.stats.mem.len() == 0 ==> row[6] == "-"@
            &&& e.stats.uptime.len() == 0 ==> row[7] == "-"@
        }),
{
    text_laws::law_numbers_read_back(e.port as nat);
    text_laws::law_numbers_read_back(pid as nat);
}

/// The home directory is written as a tilde, and so is the start of every
/// path below it; any other path stays as it is.
pub proof fn law_home_is_a_tilde(h: Seq<char>, x: Seq<char>, s: Seq<char>)
    requires
        h.len() > 1,
    ensures
        table::shortened(h, Some(h)) == "~"@,
        table::shortened(h + "/"@ + x, Some(h)) == "~/"@ + x,
        s != h && (s.len() <= h.len() || s.take(h.len() as int) != h || s[h.len() as int] != '/')
            ==> table::shortened(s, Some(h)) == s,
        table::shortened(s, None) == s,
{
    reveal_strlit("");
    reveal_strlit("-");
    reveal_strlit("?");
    reveal_strlit("/");
    reveal_strlit("~");
    reveal_strlit("~/");
    let p = h + "/"@;
    let t = p + x;
    assert(t.subrange(0, p.len() as int) =~= p);
    assert(p.is_prefix_of(t));
    assert(t.skip(h.len() as int + 1) =~= x);
    if s != h && p.is_prefix_of(s) {
        assert(s.subrange(0, p.len() as int) =~= p);
        assert(s[h.len() as int] == p[h.len() as int]);
        assert(s.take(h.len() as int) =~= h) by {
            assert forall|i: int| 0 <= i < h.len() implies s[i] == h[i] by {
                assert(p[i] == s.subrange(0, p.len() as int)[i]);
            }
        }
    }
}

/// A column is no wider than its head and its cells need: one of them fills it.
pub proof fn law_columns_are_tight(es: Seq<EntryView>, home: Option<Seq<char>>, k: int)
    requires
        0 <= k < 8,
    ensures
        ({
            let w = widths_of(es, home)[k];
            ||| w == width::text_width(table::headers()[k])
            ||| exists|i: int|
                0 <= i < es.len() && width::text_width(
                    #[trigger] table::row_cells(es[i], home)[k],
                ) == w
        }),
    decreases es.len(),
{
    let rows = table::all_cells(es, home);
    if es.len() > 0 {
        let front = es.drop_last();
        law_columns_are_tight(front, home, k);
        assert(rows.drop_last() =~= table::all_cells(front, home));
        let n = es.len() - 1;
        assert(rows.last() == table::row_cells(es[n], home));
        let w = widths_of(front, home)[k];
        assert(w == table::column_width(rows.drop_last(), k));
        if width::text_width(table::row_cells(es[n], home)[k]) <= w && w != width::text_width(
            table::headers()[k],
        ) {
            let i = choose|i: int|
                0 <= i < front.len() && width::text_width(
                    #[trigger] table::row_cells(front[i], home)[k],
                ) == w;
            assert(table::row_cells(es[i], home)[k] == table::row_cells(front[i], home)[k]);
        }
    }
}

/// Under each head stands a row of dashes as wide as the column.
pub proof fn law_dashes_fill_the_column(widths: Seq<nat>, k: int, i: int)
    requires
        0 <= k < widths.len(),
        0 <= i < widths[k],
    ensures
        table::dashes(widths).len() == widths.len(),
        table::dashes(widths)[k].len() == widths[k],
        table::dashes(widths)[k][i] == '-',
{
}

/// The first two lines of every table are the heads, in the order of the
/// cells, and the dashes under them.
pub proof fn law_tables_have_a_head(es: Seq<EntryView>, home: Option<Seq<char>>)
    ensures
        ({
            let t = table::table_of(es, home);
            let ws = widths_of(es, home);
            let heads = seq![
                "PROTO"@,
                "PORT"@,
                "PID"@,
                "PROCESS"@,
                "JOB"@,
                "CPU"@,
                "MEM"@,
                "UPTIME"@,
            ];
            &&& t.len() >= 2
            &&& t[0] == table::joined(heads, ws)
            &&& t[1] == table::joined(table::dashes(ws), ws)
            &&& es.len() == 0 ==> t.len() == 2
        }),
{
}

/// The root directory and what stands for no directory are never abbreviated,
/// whatever the home directory is.
pub proof fn law_plain_paths_are_kept(home: Option<Seq<char>>)
    ensures
        table::shortened("/"@, home) == "/"@,
        table::shortened("-"@, home) == "-"@,
        table::shortened("?"@, home) == "?"@,
        table::shortened(""@, home) == ""@,
{
}

} // verus!
