//! The dashboard: one aligned table of all rows, with a header above each
//! block of containers.

use vstd::prelude::*;
use crate::model;
use crate::model::{Entry, EntryView};
use crate::number;
use crate::number::decimal_string;
use crate::order;
use crate::order::group_key;
use crate::text::{chars_of, matches_at, same_str, string_of};
use crate::width;
use crate::width::{display_width, push_padded, push_repeated};
use vstd::slice::slice_subrange;

verus! {

// ---------------------------------------------------------------------------
// Cells
// ---------------------------------------------------------------------------

/// What is shown for a figure: a dash where it is unknown.
pub open spec fn shown_figure(s: Seq<char>) -> Seq<char> {
    if s.len() == 0 {
        "-"@
    } else {
        s
    }
}

/// Writes a figure, or a dash where it is unknown.
pub fn nz(s: &str) -> (r: String)
    ensures
        r@ == shown_figure(s@),
{
    let cs = chars_of(s);
    if cs.len() == 0 {
        "-".to_owned()
    } else {
        s.to_owned()
    }
}

/// Whether `s` stands for no directory of its own, so that it is never
/// abbreviated.
pub open spec fn is_plain_path(s: Seq<char>) -> bool {
    s == ""@ || s == "-"@ || s == "?"@ || s == "/"@
}

/// The path `s` with the home directory written `~`. It is never cut.
pub open spec fn shortened(s: Seq<char>, home: Option<Seq<char>>) -> Seq<char> {
    match home {
        Some(h) => if is_plain_path(s) {
            s
        } else if s == h {
            "~"@
        } else if (h + "/"@).is_prefix_of(s) {
            "~/"@ + s.skip(h.len() as int + 1)
        } else {
            s
        },
        None => s,
    }
}

/// The path that a shell makes of `t` where the home directory is `h`.
pub open spec fn expanded(t: Seq<char>, h: Seq<char>) -> Seq<char> {
    if t.len() > 0 && t[0] == '~' && (t.len() == 1 || t[1] == '/') {
        h + t.skip(1)
    } else {
        t
    }
}

/// Nothing of a path is lost: a path that does not start with a tilde itself
/// is what its abbreviation expands to.
pub proof fn law_path_is_kept(s: Seq<char>, h: Seq<char>)
    requires
        s.len() == 0 || s[0] != '~',
    ensures
        expanded(shortened(s, Some(h)), h) == s,
{
    reveal_strlit("~");
    reveal_strlit("~/");
    reveal_strlit("/");
    let t = shortened(s, Some(h));
    if !is_plain_path(s) {
        if s == h {
            assert(h + t.skip(1) =~= s);
        } else if (h + "/"@).is_prefix_of(s) {
            let p = h + "/"@;
            assert(s.subrange(0, p.len() as int) =~= p);
            assert(s[h.len() as int] == p[h.len() as int]);
            assert(t[0] == '~');
            assert(t[1] == '/');
            assert(h + t.skip(1) =~= s) by {
                assert forall|i: int| 0 <= i < s.len() implies (h + t.skip(1))[i] == s[i] by {
                    if i < h.len() {
                        assert(p[i] == s.subrange(0, p.len() as int)[i]);
                    }
                }
            }
        }
    }
}

/// Writes a path with the home directory as `~`. It is never cut.
pub fn shorten_path(s: &str, home: Option<&str>) -> (r: String)
    ensures
        r@ == shortened(
            s@,
            match home {
                Some(h) => Some(h@),
                None => None,
            },
        ),
{
    match home {
        None => s.to_owned(),
        Some(h) => {
            if same_str(s, "") || same_str(s, "-") || same_str(s, "?") || same_str(s, "/") {
                return s.to_owned();
            }
            if same_str(s, h) {
                return "~".to_owned();
            }
            let mut prefix = h.to_owned();
            prefix.append("/");
            let cs = chars_of(s);
            let ps = chars_of(prefix.as_str());
            proof {
                reveal_strlit("/");
            }
            if ps.len() <= cs.len() && matches_at(cs.as_slice(), ps.as_slice(), 0) {
                assert(s@.subrange(0, ps@.len() as int) =~= ps@);
                assert((h@ + "/"@).is_prefix_of(s@));
                let rest = slice_subrange(cs.as_slice(), ps.len(), cs.len());
                assert(rest@ =~= s@.skip(h@.len() as int + 1));
                let mut r = "~/".to_owned();
                let tail = string_of(rest);
                r.append(tail.as_str());
                return r;
            }
            s.to_owned()
        },
    }
}

// ---------------------------------------------------------------------------
// Rows
// ---------------------------------------------------------------------------

/// The process of a row: a dash where it is unknown.
pub open spec fn pid_text(pid: Option<u32>) -> Seq<char> {
    match pid {
        Some(p) => number::decimal(p as nat),
        None => "-"@,
    }
}

/// Writes the process of a row.
pub fn pid_cell(pid: Option<u32>) -> (r: String)
    ensures
        r@ == pid_text(pid),
{
    match pid {
        Some(p) => decimal_string(p as u64),
        None => "-".to_owned(),
    }
}

/// The heads of the columns.
pub open spec fn headers() -> Seq<Seq<char>> {
    seq!["PROTO"@, "PORT"@, "PID"@, "PROCESS"@, "JOB"@, "CPU"@, "MEM"@, "UPTIME"@]
}

/// The job of a row: the container, or the working directory.
pub open spec fn job_text(e: EntryView, home: Option<Seq<char>>) -> Seq<char> {
    match e.docker {
        Some(d) => d.name,
        None => shortened(e.cwd, home),
    }
}

/// The cells of a row.
pub open spec fn row_cells(e: EntryView, home: Option<Seq<char>>) -> Seq<Seq<char>> {
    seq![
        e.proto.label(),
        number::decimal(e.port as nat),
        pid_text(e.pid),
        if e.docker is Some {
            "docker"@
        } else {
            e.process
        },
        job_text(e, home),
        shown_figure(e.stats.cpu),
        shown_figure(e.stats.mem),
        shown_figure(e.stats.uptime),
    ]
}

/// The cells of all rows.
pub open spec fn all_cells(es: Seq<EntryView>, home: Option<Seq<char>>) -> Seq<Seq<Seq<char>>> {
    es.map_values(|e: EntryView| row_cells(e, home))
}

/// The larger of two widths.
pub open spec fn wider(a: nat, b: nat) -> nat {
    if a < b {
        b
    } else {
        a
    }
}

/// The width of column `k`: that of its head or of its widest cell.
pub open spec fn column_width(rows: Seq<Seq<Seq<char>>>, k: int) -> nat
    decreases rows.len(),
{
    if rows.len() == 0 {
        width::text_width(headers()[k])
    } else {
        wider(column_width(rows.drop_last(), k), width::text_width(rows.last()[k]))
    }
}

/// The widths of all columns.
pub open spec fn column_widths(rows: Seq<Seq<Seq<char>>>) -> Seq<nat> {
    Seq::new(8, |k: int| column_width(rows, k))
}

/// The cells in one line: each padded to its column, two spaces between them.
pub open spec fn joined(cells: Seq<Seq<char>>, widths: Seq<nat>) -> Seq<char>
    decreases cells.len(),
{
    if cells.len() == 0 {
        Seq::empty()
    } else {
        let cell = width::padded(cells.last(), widths[cells.len() - 1]);
        if cells.len() == 1 {
            cell
        } else {
            joined(cells.drop_last(), widths) + "  "@ + cell
        }
    }
}

/// The dashes under the heads.
pub open spec fn dashes(widths: Seq<nat>) -> Seq<Seq<char>> {
    widths.map_values(|w: nat| width::repeated('-', w))
}

/// The container group of a row; none for a local process.
pub open spec fn docker_group(e: EntryView) -> Option<Seq<char>> {
    if e.docker is Some {
        Some(order::group_of(e))
    } else {
        None
    }
}

/// Whether a block of containers starts at row `i`.
pub open spec fn starts_block(es: Seq<EntryView>, i: int) -> bool {
    docker_group(es[i]) is Some && (i == 0 || docker_group(es[i - 1]) != docker_group(es[i]))
}

/// The lines above row `i`: the header of the block that starts there, with a
/// blank line before it unless it is the first row.
pub open spec fn block_lines(es: Seq<EntryView>, i: int) -> Seq<Seq<char>> {
    if starts_block(es, i) {
        let head = "[ "@ + order::group_of(es[i]) + " ]"@;
        if i > 0 {
            seq![Seq::empty(), head]
        } else {
            seq![head]
        }
    } else {
        Seq::empty()
    }
}

/// The lines of the first `n` rows.
pub open spec fn body_lines(
    es: Seq<EntryView>,
    home: Option<Seq<char>>,
    widths: Seq<nat>,
    n: nat,
) -> Seq<Seq<char>>
    decreases n,
{
    if n == 0 {
        Seq::empty()
    } else {
        body_lines(es, home, widths, (n - 1) as nat) + block_lines(es, n - 1) + seq![
            joined(row_cells(es[n - 1], home), widths),
        ]
    }
}

/// The lines of the table.
pub open spec fn table_of(es: Seq<EntryView>, home: Option<Seq<char>>) -> Seq<Seq<char>> {
    let widths = column_widths(all_cells(es, home));
    seq![joined(headers(), widths), joined(dashes(widths), widths)] + body_lines(
        es,
        home,
        widths,
        es.len(),
    )
}

/// The note below a table without rows.
pub open spec fn empty_note_text(dev: bool) -> Seq<char> {
    if dev {
        "\n(no listening ports found — try running with sudo)"@
    } else {
        "\n(no user servers to display — run `lport --dev` to see everything)"@
    }
}

/// Writes the note below a table without rows.
pub fn empty_note(dev: bool) -> (r: String)
    ensures
        r@ == empty_note_text(dev),
{
    if dev {
        "\n(no listening ports found — try running with sudo)".to_owned()
    } else {
        "\n(no user servers to display — run `lport --dev` to see everything)".to_owned()
    }
}

/// The view of an optional home directory.
pub open spec fn home_view(home: Option<&str>) -> Option<Seq<char>> {
    match home {
        Some(h) => Some(h@),
        None => None,
    }
}

fn make_row(e: &Entry, home: Option<&str>) -> (r: Vec<String>)
    ensures
        model::texts(r@) == row_cells(e@, home_view(home)),
{
    let process = if e.docker.is_some() {
        "docker".to_owned()
    } else {
        e.process.clone()
    };
    let job = match &e.docker {
        Some(d) => d.name.clone(),
        None => shorten_path(e.cwd.as_str(), home),
    };
    let r = vec![
        e.proto.name().to_owned(),
        decimal_string(e.port as u64),
        pid_cell(e.pid),
        process,
        job,
        nz(e.stats.cpu.as_str()),
        nz(e.stats.mem.as_str()),
        nz(e.stats.uptime.as_str()),
    ];
    assert(model::texts(r@) =~= row_cells(e@, home_view(home)));
    r
}

fn make_headers() -> (r: Vec<String>)
    ensures
        model::texts(r@) == headers(),
{
    let r = vec![
        "PROTO".to_owned(),
        "PORT".to_owned(),
        "PID".to_owned(),
        "PROCESS".to_owned(),
        "JOB".to_owned(),
        "CPU".to_owned(),
        "MEM".to_owned(),
        "UPTIME".to_owned(),
    ];
    assert(model::texts(r@) =~= headers());
    r
}

/// The widths as natural numbers.
pub open spec fn naturals(v: Seq<u128>) -> Seq<nat> {
    v.map_values(|w: u128| w as nat)
}

fn join_cells(cells: &Vec<String>, widths: &Vec<u128>) -> (r: String)
    requires
        cells@.len() <= widths@.len(),
    ensures
        r@ == joined(model::texts(cells@), naturals(widths@)),
{
    let ghost all = model::texts(cells@);
    let ghost ws = naturals(widths@);
    let mut r = String::new();
    let mut i: usize = 0;
    assert(all.take(0) =~= Seq::<Seq<char>>::empty());
    while i < cells.len()
        invariant
            i <= cells@.len(),
            cells@.len() <= widths@.len(),
            all == model::texts(cells@),
            ws == naturals(widths@),
            r@ == joined(all.take(i as int), ws),
        decreases cells@.len() - i,
    {
        assert(all.take(i + 1).drop_last() =~= all.take(i as int));
        assert(all.take(i + 1).last() == cells@[i as int]@);
        assert(ws[i as int] == widths@[i as int] as nat);
        if i > 0 {
            r.append("  ");
        }
        push_padded(&mut r, cells[i].as_str(), widths[i]);
        assert(r@ =~= joined(all.take(i + 1), ws));
        i += 1;
    }
    assert(all.take(i as int) =~= all);
    r
}

/// The contents of rows of cells.
pub open spec fn grid(rows: Seq<Vec<String>>) -> Seq<Seq<Seq<char>>> {
    rows.map_values(|r: Vec<String>| model::texts(r@))
}

fn make_rows(entries: &Vec<Entry>, home: Option<&str>) -> (r: Vec<Vec<String>>)
    ensures
        grid(r@) == all_cells(model::views(entries@), home_view(home)),
{
    let ghost es = model::views(entries@);
    let mut r: Vec<Vec<String>> = Vec::new();
    let mut i: usize = 0;
    while i < entries.len()
        invariant
            i <= entries@.len(),
            es == model::views(entries@),
            grid(r@) =~= all_cells(es.take(i as int), home_view(home)),
        decreases entries@.len() - i,
    {
        let row = make_row(&entries[i], home);
        assert(es[i as int] == entries@[i as int]@);
        assert(grid(r@.push(row)) =~= grid(r@).push(model::texts(row@)));
        assert(all_cells(es.take(i + 1), home_view(home)) =~= all_cells(
            es.take(i as int),
            home_view(home),
        ).push(row_cells(es[i as int], home_view(home))));
        r.push(row);
        i += 1;
    }
    assert(es.take(i as int) =~= es);
    r
}

fn measure_column(rows: &Vec<Vec<String>>, k: usize) -> (r: u128)
    requires
        k < 8,
        forall|i: int| 0 <= i < rows@.len() ==> (#[trigger] rows@[i])@.len() == 8,
    ensures
        r == column_width(grid(rows@), k as int),
{
    let ghost g = grid(rows@);
    let heads = make_headers();
    assert(model::texts(heads@).len() == heads@.len());
    assert(model::texts(heads@)[k as int] == heads@[k as int]@);
    let mut w: u128 = display_width(heads[k].as_str());
    let mut i: usize = 0;
    assert(g.take(0) =~= Seq::<Seq<Seq<char>>>::empty());
    while i < rows.len()
        invariant
            k < 8,
            i <= rows@.len(),
            g == grid(rows@),
            forall|m: int| 0 <= m < rows@.len() ==> (#[trigger] rows@[m])@.len() == 8,
            w == column_width(g.take(i as int), k as int),
        decreases rows@.len() - i,
    {
        assert(rows@[i as int]@.len() == 8);
        assert(g.take(i + 1).drop_last() =~= g.take(i as int));
        assert(g.take(i + 1).last()[k as int] == rows@[i as int]@[k as int]@);
        let c: u128 = display_width(rows[i][k].as_str());
        if w < c {
            w = c;
        }
        i += 1;
    }
    assert(g.take(i as int) =~= g);
    w
}

fn measure_columns(rows: &Vec<Vec<String>>) -> (r: Vec<u128>)
    requires
        forall|i: int| 0 <= i < rows@.len() ==> (#[trigger] rows@[i])@.len() == 8,
    ensures
        naturals(r@) == column_widths(grid(rows@)),
{
    let mut r: Vec<u128> = Vec::new();
    let mut k: usize = 0;
    while k < 8
        invariant
            k <= 8,
            r@.len() == k,
            forall|i: int| 0 <= i < rows@.len() ==> (#[trigger] rows@[i])@.len() == 8,
            forall|j: int| 0 <= j < k ==> (#[trigger] r@[j]) == column_width(grid(rows@), j),
        decreases 8 - k,
    {
        let w: u128 = measure_column(rows, k);
        r.push(w);
        k += 1;
    }
    assert(naturals(r@) =~= column_widths(grid(rows@)));
    r
}

fn make_dashes(widths: &Vec<u128>) -> (r: Vec<String>)
    ensures
        model::texts(r@) == dashes(naturals(widths@)),
{
    let ghost ws = naturals(widths@);
    let mut r: Vec<String> = Vec::new();
    let mut i: usize = 0;
    while i < widths.len()
        invariant
            i <= widths@.len(),
            ws == naturals(widths@),
            model::texts(r@) =~= dashes(ws.take(i as int)),
        decreases widths@.len() - i,
    {
        let mut s = String::new();
        push_repeated(&mut s, '-', widths[i]);
        assert(s@ =~= width::repeated('-', ws[i as int]));
        proof {
            model::lemma_texts_push(r@, s);
        }
        assert(dashes(ws.take(i + 1)) =~= dashes(ws.take(i as int)).push(
            width::repeated('-', ws[i as int]),
        ));
        r.push(s);
        i += 1;
    }
    assert(ws.take(i as int) =~= ws);
    r
}

fn is_block_start(entries: &Vec<Entry>, i: usize) -> (r: bool)
    requires
        i < entries.len(),
    ensures
        r == starts_block(model::views(entries@), i as int),
{
    let ghost es = model::views(entries@);
    assert(es[i as int] == entries@[i as int]@);
    if entries[i].docker.is_none() {
        return false;
    }
    if i == 0 {
        return true;
    }
    assert(es[i - 1] == entries@[i - 1]@);
    if entries[i - 1].docker.is_none() {
        return true;
    }
    !same_str(group_key(&entries[i - 1]), group_key(&entries[i]))
}

/// Lays out the table of the rows `entries`, line by line. `home` is the
/// home directory.
pub fn table_lines(entries: &Vec<Entry>, home: Option<&str>) -> (out: Vec<String>)
    ensures
        model::texts(out@) == table_of(model::views(entries@), home_view(home)),
{
    let ghost es = model::views(entries@);
    let ghost hv = home_view(home);
    let rows = make_rows(entries, home);
    let ghost cells = all_cells(es, hv);
    assert forall|i: int| 0 <= i < rows@.len() implies (#[trigger] rows@[i])@.len() == 8 by {
        assert(grid(rows@).len() == cells.len());
        assert(grid(rows@)[i] == model::texts(rows@[i]@));
        assert(cells[i] == row_cells(es[i], hv));
        assert(row_cells(es[i], hv).len() == 8);
    }
    let widths = measure_columns(&rows);
    let ghost ws = column_widths(cells);
    assert(naturals(widths@).len() == 8);
    let heads = make_headers();
    assert(model::texts(heads@).len() == 8);
    let marks = make_dashes(&widths);
    assert(model::texts(marks@).len() == 8);
    let mut out: Vec<String> = vec![join_cells(&heads, &widths), join_cells(&marks, &widths)];
    let ghost top = seq![joined(headers(), ws), joined(dashes(ws), ws)];
    assert(model::texts(out@) =~= top);
    let mut i: usize = 0;
    assert(top + body_lines(es, hv, ws, 0) =~= top);
    while i < entries.len()
        invariant
            i <= entries@.len(),
            es == model::views(entries@),
            hv == home_view(home),
            cells == all_cells(es, hv),
            ws == column_widths(cells),
            naturals(widths@) == ws,
            widths@.len() == 8,
            grid(rows@) == cells,
            forall|m: int| 0 <= m < rows@.len() ==> (#[trigger] rows@[m])@.len() == 8,
            model::texts(out@) == top + body_lines(es, hv, ws, i as nat),
        decreases entries@.len() - i,
    {
        let ghost start = model::texts(out@);
        if is_block_start(entries, i) {
            if i > 0 {
                let blank = String::new();
                proof {
                    model::lemma_texts_push(out@, blank);
                }
                out.push(blank);
            }
            let mut head = "[ ".to_owned();
            head.append(group_key(&entries[i]));
            head.append(" ]");
            proof {
                model::lemma_texts_push(out@, head);
            }
            out.push(head);
        }
        assert(es[i as int] == entries@[i as int]@);
        assert(model::texts(out@) =~= start + block_lines(es, i as int));
        assert(rows@.len() == entries@.len()) by {
            assert(grid(rows@).len() == cells.len());
        }
        assert(grid(rows@)[i as int] == model::texts(rows@[i as int]@));
        assert(cells[i as int] == row_cells(es[i as int], hv));
        let line = join_cells(&rows[i], &widths);
        proof {
            model::lemma_texts_push(out@, line);
        }
        out.push(line);
        assert(model::texts(out@) =~= top + body_lines(es, hv, ws, (i + 1) as nat));
        i += 1;
    }
    out
}

} // verus!
