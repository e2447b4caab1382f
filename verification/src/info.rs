//! The detail view: a block of labelled rows for each listener.

use vstd::prelude::*;
use crate::args::ModeView;
use crate::listing;
use crate::messages;
use crate::messages::no_listener;
use crate::model;
use crate::model::{DockerInfo, DockerView, Entry, EntryView};
use crate::number;
use crate::number::{decimal_string, push_decimal};
use crate::order;
use crate::order::RowOrder;
use crate::table;
use crate::table::{nz, pid_cell};
use crate::width;
use crate::width::{display_width, push_padded};

verus! {

/// The contents of labelled rows.
pub open spec fn row_views(v: Seq<(&'static str, String)>) -> Seq<(Seq<char>, Seq<char>)> {
    v.map_values(|r: (&'static str, String)| (r.0@, r.1@))
}

/// A row that is there only if its value is known.
pub open spec fn optional_row(label: Seq<char>, value: Option<Seq<char>>) -> Seq<
    (Seq<char>, Seq<char>),
> {
    match value {
        Some(v) => seq![(label, v)],
        None => Seq::empty(),
    }
}

/// The thread count of a process as it is shown.
pub open spec fn threads_text(threads: Option<u32>) -> Option<Seq<char>> {
    match threads {
        Some(t) => Some(number::decimal(t as nat)),
        None => None,
    }
}

/// The rows of a local process.
pub open spec fn local_rows(e: EntryView) -> Seq<(Seq<char>, Seq<char>)> {
    seq![
        ("PORT"@, e.proto.label() + "/"@ + number::decimal(e.port as nat)),
        ("PROCESS"@, e.process),
        ("PID"@, table::pid_text(e.pid)),
    ] + optional_row("USER"@, e.stats.user) + seq![
        ("CPU"@, table::shown_figure(e.stats.cpu)),
        ("MEM"@, table::shown_figure(e.stats.mem)),
    ] + optional_row("THREADS"@, threads_text(e.stats.threads)) + seq![
        ("UPTIME"@, table::shown_figure(e.stats.uptime)),
        ("CWD"@, e.cwd),
        ("CMD"@, e.cmdline),
    ]
}

/// The rows of a container. The working directory of one that no compose
/// project started is unknown.
pub open spec fn docker_rows(e: EntryView, d: DockerView) -> Seq<(Seq<char>, Seq<char>)> {
    seq![
        (
            "PORT"@,
            e.proto.label() + "/"@ + number::decimal(e.port as nat) + " → "@ + number::decimal(
                d.container_port as nat,
            ) + " (in container)"@,
        ),
        ("TYPE"@, "docker container"@),
        ("CONTAINER"@, d.name),
        ("IMAGE"@, d.image),
        (
            "WORKDIR"@,
            match d.work_dir {
                Some(w) => w,
                None => "-"@,
            },
        ),
        ("CPU"@, table::shown_figure(e.stats.cpu)),
        ("MEM"@, table::shown_figure(e.stats.mem)),
        ("UPTIME"@, table::shown_figure(e.stats.uptime)),
    ]
}

/// The rows of a listener.
pub open spec fn info_rows(e: EntryView) -> Seq<(Seq<char>, Seq<char>)> {
    match e.docker {
        Some(d) => docker_rows(e, d),
        None => local_rows(e),
    }
}

proof fn lemma_row_push(v: Seq<(&'static str, String)>, label: &'static str, value: String)
    ensures
        row_views(v.push((label, value))) == row_views(v).push((label@, value@)),
{
    assert(row_views(v.push((label, value))) =~= row_views(v).push((label@, value@)));
}

fn add_row(rows: &mut Vec<(&'static str, String)>, label: &'static str, value: String)
    ensures
        row_views(final(rows)@) == row_views(old(rows)@).push((label@, value@)),
{
    proof {
        lemma_row_push(rows@, label, value);
    }
    rows.push((label, value));
}

/// Lists the rows of a local process.
pub fn local_info_rows(e: &Entry) -> (rows: Vec<(&'static str, String)>)
    ensures
        row_views(rows@) == local_rows(e@),
{
    let mut rows: Vec<(&'static str, String)> = Vec::new();
    let mut place = e.proto.name().to_owned();
    place.append("/");
    push_decimal(&mut place, e.port as u64);
    add_row(&mut rows, "PORT", place);
    add_row(&mut rows, "PROCESS", e.process.clone());
    add_row(&mut rows, "PID", pid_cell(e.pid));
    if let Some(u) = &e.stats.user {
        add_row(&mut rows, "USER", u.clone());
    }
    add_row(&mut rows, "CPU", nz(e.stats.cpu.as_str()));
    add_row(&mut rows, "MEM", nz(e.stats.mem.as_str()));
    if let Some(t) = e.stats.threads {
        add_row(&mut rows, "THREADS", decimal_string(t as u64));
    }
    add_row(&mut rows, "UPTIME", nz(e.stats.uptime.as_str()));
    add_row(&mut rows, "CWD", e.cwd.clone());
    add_row(&mut rows, "CMD", e.cmdline.clone());
    assert(row_views(rows@) =~= local_rows(e@));
    rows
}

/// Lists the rows of a container.
pub fn docker_info_rows(e: &Entry, d: &DockerInfo) -> (rows: Vec<(&'static str, String)>)
    ensures
        row_views(rows@) == docker_rows(e@, d@),
{
    let mut rows: Vec<(&'static str, String)> = Vec::new();
    let mut place = e.proto.name().to_owned();
    place.append("/");
    push_decimal(&mut place, e.port as u64);
    place.append(" → ");
    push_decimal(&mut place, d.container_port as u64);
    place.append(" (in container)");
    let work_dir = match &d.work_dir {
        Some(w) => w.clone(),
        None => "-".to_owned(),
    };
    add_row(&mut rows, "PORT", place);
    add_row(&mut rows, "TYPE", "docker container".to_owned());
    add_row(&mut rows, "CONTAINER", d.name.clone());
    add_row(&mut rows, "IMAGE", d.image.clone());
    add_row(&mut rows, "WORKDIR", work_dir);
    add_row(&mut rows, "CPU", nz(e.stats.cpu.as_str()));
    add_row(&mut rows, "MEM", nz(e.stats.mem.as_str()));
    add_row(&mut rows, "UPTIME", nz(e.stats.uptime.as_str()));
    assert(row_views(rows@) =~= docker_rows(e@, d@));
    rows
}

// ---------------------------------------------------------------------------
// Blocks
// ---------------------------------------------------------------------------

/// The width of the labels: that of the widest.
pub open spec fn label_width(rows: Seq<(Seq<char>, Seq<char>)>) -> nat
    decreases rows.len(),
{
    if rows.len() == 0 {
        0
    } else {
        table::wider(label_width(rows.drop_last()), width::text_width(rows.last().0))
    }
}

/// A labelled row as a line.
pub open spec fn row_line(row: (Seq<char>, Seq<char>), label_width: nat) -> Seq<char> {
    "  "@ + width::padded(row.0, label_width) + "  "@ + row.1
}

/// The line above every block.
pub open spec fn rule_text() -> Seq<char> {
    "─────────────────────────────────────────────"@
}

/// The lines of labelled rows.
pub open spec fn row_lines(rows: Seq<(Seq<char>, Seq<char>)>, label_width: nat) -> Seq<Seq<char>> {
    rows.map_values(|r: (Seq<char>, Seq<char>)| row_line(r, label_width))
}

/// The lines of the block of a listener.
pub open spec fn info_block(e: EntryView) -> Seq<Seq<char>> {
    let rows = info_rows(e);
    seq![rule_text()] + row_lines(rows, label_width(rows))
}

/// The lines of all blocks, with a blank line between any two.
pub open spec fn info_text(es: Seq<EntryView>) -> Seq<Seq<char>>
    decreases es.len(),
{
    if es.len() == 0 {
        Seq::empty()
    } else if es.len() == 1 {
        info_block(es[0])
    } else {
        info_text(es.drop_last()) + seq![Seq::<char>::empty()] + info_block(es.last())
    }
}

fn widest_label(rows: &Vec<(&'static str, String)>) -> (r: u128)
    ensures
        r == label_width(row_views(rows@)),
{
    let ghost rs = row_views(rows@);
    let mut w: u128 = 0;
    let mut i: usize = 0;
    assert(rs.take(0) =~= Seq::<(Seq<char>, Seq<char>)>::empty());
    while i < rows.len()
        invariant
            i <= rows@.len(),
            rs == row_views(rows@),
            w == label_width(rs.take(i as int)),
        decreases rows@.len() - i,
    {
        assert(rs.take(i + 1).drop_last() =~= rs.take(i as int));
        assert(rs.take(i + 1).last() == (rows@[i as int].0@, rows@[i as int].1@));
        let c: u128 = display_width(rows[i].0);
        if w < c {
            w = c;
        }
        i += 1;
    }
    assert(rs.take(i as int) =~= rs);
    w
}

fn push_rows(out: &mut Vec<String>, rows: &Vec<(&'static str, String)>)
    ensures
        model::texts(final(out)@) == model::texts(old(out)@) + row_lines(
            row_views(rows@),
            label_width(row_views(rows@)),
        ),
{
    let ghost start = model::texts(out@);
    let ghost rs = row_views(rows@);
    let w: u128 = widest_label(rows);
    let mut i: usize = 0;
    while i < rows.len()
        invariant
            i <= rows@.len(),
            rs == row_views(rows@),
            w == label_width(rs),
            model::texts(out@) =~= start + row_lines(rs.take(i as int), w as nat),
        decreases rows@.len() - i,
    {
        let mut line = "  ".to_owned();
        push_padded(&mut line, rows[i].0, w);
        line.append("  ");
        line.append(rows[i].1.as_str());
        assert(rs[i as int] == (rows@[i as int].0@, rows@[i as int].1@));
        assert(line@ == row_line(rs[i as int], w as nat));
        proof {
            model::lemma_texts_push(out@, line);
        }
        assert(row_lines(rs.take(i + 1), w as nat) =~= row_lines(rs.take(i as int), w as nat).push(
            row_line(rs[i as int], w as nat),
        ));
        out.push(line);
        i += 1;
    }
    assert(rs.take(i as int) =~= rs);
}

/// Lays out the blocks of the listeners `entries`, line by line.
pub fn info_lines(entries: &Vec<Entry>) -> (out: Vec<String>)
    ensures
        model::texts(out@) == info_text(model::views(entries@)),
{
    let ghost es = model::views(entries@);
    let mut out: Vec<String> = Vec::new();
    let mut i: usize = 0;
    assert(es.take(0) =~= Seq::<EntryView>::empty());
    assert(model::texts(out@) =~= Seq::<Seq<char>>::empty());
    while i < entries.len()
        invariant
            i <= entries@.len(),
            es == model::views(entries@),
            model::texts(out@) == info_text(es.take(i as int)),
        decreases entries@.len() - i,
    {
        let ghost start = model::texts(out@);
        let e = &entries[i];
        assert(es.take(i + 1).drop_last() =~= es.take(i as int));
        assert(es.take(i + 1).last() == e@);
        if i > 0 {
            let blank = String::new();
            proof {
                model::lemma_texts_push(out@, blank);
            }
            out.push(blank);
        }
        let rule = "─────────────────────────────────────────────".to_owned();
        proof {
            model::lemma_texts_push(out@, rule);
        }
        out.push(rule);
        let rows = match &e.docker {
            Some(d) => docker_info_rows(e, d),
            None => local_info_rows(e),
        };
        assert(row_views(rows@) == info_rows(e@));
        push_rows(&mut out, &rows);
        assert(model::texts(out@) =~= info_text(es.take(i + 1)));
        i += 1;
    }
    assert(es.take(i as int) =~= es);
    out
}

// ---------------------------------------------------------------------------
// Ports without a listener
// ---------------------------------------------------------------------------

/// Whether one of `es` listens on `port`.
pub open spec fn has_listener(es: Seq<EntryView>, port: u32) -> bool {
    exists|i: int| 0 <= i < es.len() && (#[trigger] es[i]).port == port
}

/// The reports on those of `ports` that have no listener, one for each.
pub open spec fn missing_texts(es: Seq<EntryView>, ports: Seq<u32>) -> Seq<Seq<char>>
    decreases ports.len(),
{
    if ports.len() == 0 {
        Seq::empty()
    } else {
        let before = missing_texts(es, ports.drop_last());
        if has_listener(es, ports.last()) {
            before
        } else {
            before.push(messages::no_listener_text(ports.last()))
        }
    }
}

/// The exit code of a query: failure if a port has no listener.
pub open spec fn info_code(es: Seq<EntryView>, ports: Seq<u32>) -> i32 {
    if exists|i: int| 0 <= i < ports.len() && !has_listener(es, #[trigger] ports[i]) {
        1
    } else {
        0
    }
}

fn listens(entries: &Vec<Entry>, port: u32) -> (r: bool)
    ensures
        r == has_listener(model::views(entries@), port),
{
    let ghost es = model::views(entries@);
    let mut i: usize = 0;
    while i < entries.len()
        invariant
            i <= entries@.len(),
            es == model::views(entries@),
            forall|k: int| 0 <= k < i ==> (#[trigger] es[k]).port != port,
        decreases entries@.len() - i,
    {
        assert(es[i as int] == entries@[i as int]@);
        if entries[i].port == port {
            return true;
        }
        i += 1;
    }
    false
}

/// Reports the requested ports that have no listener.
pub fn missing_lines(entries: &Vec<Entry>, ports: &Vec<u32>) -> (out: Vec<String>)
    ensures
        model::texts(out@) == missing_texts(model::views(entries@), ports@),
{
    let ghost es = model::views(entries@);
    let mut out: Vec<String> = Vec::new();
    let mut i: usize = 0;
    assert(ports@.take(0) =~= Seq::<u32>::empty());
    assert(model::texts(out@) =~= Seq::<Seq<char>>::empty());
    while i < ports.len()
        invariant
            i <= ports@.len(),
            es == model::views(entries@),
            model::texts(out@) == missing_texts(es, ports@.take(i as int)),
        decreases ports@.len() - i,
    {
        assert(ports@.take(i + 1).drop_last() =~= ports@.take(i as int));
        assert(ports@.take(i + 1).last() == ports@[i as int]);
        if !listens(entries, ports[i]) {
            let line = no_listener(ports[i]);
            proof {
                model::lemma_texts_push(out@, line);
            }
            out.push(line);
        }
        i += 1;
    }
    assert(ports@.take(i as int) =~= ports@);
    out
}

/// The exit code of `lport info`.
pub fn info_exit_code(entries: &Vec<Entry>, ports: &Vec<u32>) -> (r: i32)
    ensures
        r == info_code(model::views(entries@), ports@),
{
    let ghost es = model::views(entries@);
    let mut i: usize = 0;
    while i < ports.len()
        invariant
            i <= ports@.len(),
            es == model::views(entries@),
            forall|k: int| 0 <= k < i ==> has_listener(es, #[trigger] ports@[k]),
        decreases ports@.len() - i,
    {
        if !listens(entries, ports[i]) {
            assert(!has_listener(es, ports@[i as int]));
            return 1;
        }
        i += 1;
    }
    0
}

/// A query fails exactly if it reports a port.
pub proof fn law_info_code_says_what_was_reported(es: Seq<EntryView>, ports: Seq<u32>)
    ensures
        info_code(es, ports) == 0 <==> missing_texts(es, ports).len() == 0,
    decreases ports.len(),
{
    if ports.len() > 0 {
        let front = ports.drop_last();
        law_info_code_says_what_was_reported(es, front);
        if info_code(es, front) == 1 {
            let i = choose|i: int| 0 <= i < front.len() && !has_listener(es, #[trigger] front[i]);
            assert(!has_listener(es, ports[i]));
        }
        if info_code(es, ports) == 1 {
            let i = choose|i: int| 0 <= i < ports.len() && !has_listener(es, #[trigger] ports[i]);
            if i < front.len() {
                assert(!has_listener(es, front[i]));
            }
        }
        if !has_listener(es, ports.last()) {
            assert(!has_listener(es, ports[ports.len() - 1]));
        }
    }
}

/// Every requested port is answered: by a listener that is shown, or by a
/// report.
pub proof fn law_every_port_is_answered(es: Seq<EntryView>, ports: Seq<u32>, i: int)
    requires
        0 <= i < ports.len(),
        !has_listener(es, ports[i]),
    ensures
        missing_texts(es, ports).contains(messages::no_listener_text(ports[i])),
    decreases ports.len(),
{
    let text = messages::no_listener_text(ports[i]);
    let before = missing_texts(es, ports.drop_last());
    let after = missing_texts(es, ports);
    if i < ports.len() - 1 {
        law_every_port_is_answered(es, ports.drop_last(), i);
        let j = choose|j: int| 0 <= j < before.len() && before[j] == text;
        assert(after[j] == text);
    } else {
        assert(after.last() == text);
    }
}

proof fn lemma_distinct_from(s: Seq<EntryView>, j: int)
    requires
        0 <= j < listing::distinct(s).len(),
    ensures
        s.contains(listing::distinct(s)[j]),
    decreases s.len(),
{
    let t = listing::distinct(s.drop_last());
    let e = listing::distinct(s)[j];
    if j < t.len() {
        lemma_distinct_from(s.drop_last(), j);
        let i = choose|i: int| 0 <= i < s.drop_last().len() && s.drop_last()[i] == e;
        assert(s[i] == e);
    } else {
        assert(s[s.len() - 1] == e);
    }
}

/// A port that anything listens on is never reported missing, and a port
/// that nothing listens on is never shown.
pub proof fn law_sockets_decide_what_is_missing(s: Seq<EntryView>, mode: ModeView, port: u32)
    requires
        listing::asks_for(mode, port),
    ensures
        has_listener(listing::selected(s, mode), port) == has_listener(s, port),
{
    let o = order::sorted(s, RowOrder::Ports);
    let d = listing::distinct(o);
    let p = |e: EntryView| listing::wanted(e, mode);
    let r = d.filter(p);
    order::law_sorted_keeps_rows(s, RowOrder::Ports);
    if has_listener(s, port) {
        let i = choose|i: int| 0 <= i < s.len() && (#[trigger] s[i]).port == port;
        vstd::seq_lib::to_multiset_contains(s, s[i]);
        vstd::seq_lib::to_multiset_contains(o, s[i]);
        let j = choose|j: int| 0 <= j < o.len() && o[j] == s[i];
        listing::law_every_listener_has_a_row(o, j);
        let k = choose|k: int|
            0 <= k < d.len() && (#[trigger] d[k] == o[j] || listing::same_listener(d[k], o[j]));
        assert(d[k].port == port);
        d.lemma_filter_contains(p, k);
        let m = choose|m: int| 0 <= m < r.len() && r[m] == d[k];
        assert(r[m].port == port);
    }
    if has_listener(r, port) {
        let m = choose|m: int| 0 <= m < r.len() && (#[trigger] r[m]).port == port;
        lemma_filter_from(d, p, m);
        let k = choose|k: int| 0 <= k < d.len() && d[k] == r[m];
        lemma_distinct_from(o, k);
        vstd::seq_lib::to_multiset_contains(s, r[m]);
        vstd::seq_lib::to_multiset_contains(o, r[m]);
        let i = choose|i: int| 0 <= i < s.len() && s[i] == r[m];
        assert(s[i].port == port);
    }
}

proof fn lemma_filter_from(s: Seq<EntryView>, p: spec_fn(EntryView) -> bool, i: int)
    requires
        0 <= i < s.filter(p).len(),
    ensures
        s.contains(s.filter(p)[i]),
    decreases s.len(),
{
    reveal(Seq::filter);
    let front = s.drop_last();
    let e = s.filter(p)[i];
    if i < front.filter(p).len() {
        lemma_filter_from(front, p, i);
        let k = choose|k: int| 0 <= k < front.len() && front[k] == e;
        assert(s[k] == e);
    } else {
        assert(s[s.len() - 1] == e);
    }
}

} // verus!
