//! What holds of the rows that are listed, field by field.

use vstd::prelude::*;
use crate::args::ModeView;
use crate::listing;
use crate::model::{DockerView, EntryView};
use crate::order;
use crate::order::RowOrder;

verus! {

// ---------------------------------------------------------------------------
// Order
// ---------------------------------------------------------------------------

/// The first character in which two texts differ decides which of them comes
/// first, and a text comes before its continuations.
pub proof fn law_first_difference_decides(
    p: Seq<char>,
    c: char,
    x: Seq<char>,
    d: char,
    y: Seq<char>,
)
    ensures
        c != d ==> order::text_before(p + seq![c] + x, p + seq![d] + y) == (c < d),
        order::text_before(p, p + seq![c] + x),
        !order::text_before(p + x, p),
    decreases p.len(),
{
    let (a, b) = (p + seq![c] + x, p + seq![d] + y);
    if p.len() > 0 {
        let q = p.skip(1);
        law_first_difference_decides(q, c, x, d, y);
        assert(a.skip(1) =~= q + seq![c] + x);
        assert(b.skip(1) =~= q + seq![d] + y);
        assert((p + x).skip(1) =~= q + x);
        assert(a[0] == p[0] && b[0] == p[0] && (p + x)[0] == p[0]);
    } else {
        assert(a[0] == c && b[0] == d);
    }
}

/// Listeners are gone through by port, TCP before UDP, unknown processes
/// before known ones and known ones by number.
pub proof fn law_listeners_are_by_port(s: Seq<EntryView>, i: int, j: int)
    requires
        0 <= i < j < s.len(),
    ensures
        ({
            let r = order::sorted(s, RowOrder::Ports);
            let (a, b) = (r[i], r[j]);
            &&& r.len() == s.len()
            &&& a.port <= b.port
            &&& a.port == b.port ==> !(a.proto is Udp && b.proto is Tcp)
            &&& a.port == b.port && a.proto == b.proto && a.pid is Some && a.pid.unwrap() > 0
                ==> b.pid is Some && a.pid.unwrap() <= b.pid.unwrap()
        }),
{
    order::law_sorted_is_in_order(s, RowOrder::Ports);
    let r = order::sorted(s, RowOrder::Ports);
    assert(!order::before(r[j], r[i], RowOrder::Ports));
}

/// A container is shown with its compose project, or by itself where it has
/// none; a process is shown with the others of its directory.
pub proof fn law_groups(e: EntryView, d: DockerView, project: Seq<char>)
    ensures
        e.docker is None ==> order::group_of(e) == e.cwd,
        e.docker == Some(d) && d.compose_project == Some(project) ==> order::group_of(e) == project,
        e.docker == Some(d) && d.compose_project is None ==> order::group_of(e) == d.name,
{
}

/// Rows are shown by group, in the order of the dictionary; within a group
/// processes come before containers, containers by name, and the rows of each
/// by port, TCP before UDP.
pub proof fn law_rows_are_by_group(s: Seq<EntryView>, mode: ModeView, i: int, j: int)
    requires
        0 <= i < j < listing::arranged(s, mode).len(),
    ensures
        ({
            let r = listing::arranged(s, mode);
            let (a, b) = (r[i], r[j]);
            let (g, h) = (order::group_of(a), order::group_of(b));
            &&& g == h || order::text_before(g, h)
            &&& g == h ==> !(a.docker is Some && a.docker.unwrap().name.len() > 0 && b.docker
                is None)
            &&& g == h && a.docker is Some && b.docker is Some ==> a.docker.unwrap().name
                == b.docker.unwrap().name || order::text_before(
                a.docker.unwrap().name,
                b.docker.unwrap().name,
            )
            &&& g == h && (a.docker is None && b.docker is None || a.docker is Some && b.docker
                is Some && a.docker.unwrap().name == b.docker.unwrap().name) ==> a.port <= b.port
                && (a.port == b.port ==> !(a.proto is Udp && b.proto is Tcp))
        }),
{
    let shown = s.filter(|e: EntryView| listing::shown(e, mode));
    order::law_sorted_is_in_order(shown, RowOrder::Groups);
    let r = listing::arranged(s, mode);
    let (a, b) = (r[i], r[j]);
    assert(!order::before(b, a, RowOrder::Groups));
    order::lemma_text_order(order::group_of(a), order::group_of(b));
    order::lemma_text_order(order::container_name(a), order::container_name(b));
}

// ---------------------------------------------------------------------------
// One row per listener
// ---------------------------------------------------------------------------

/// Whether `e` is the socket of a container on every address of one IP stack
/// and `f` that of the same container on every address of the other.
pub open spec fn stack_pair(e: EntryView, f: EntryView) -> bool {
    &&& e.docker is Some && f.docker is Some && e.docker.unwrap().name == f.docker.unwrap().name
    &&& e.addr == "0.0.0.0"@ && f.addr == "::"@ || e.addr == "::"@ && f.addr == "0.0.0.0"@
}

/// Two rows on one port and protocol are never those of one process, nor of
/// one container on both IP stacks, and every row is a socket that was found.
pub proof fn law_rows_differ(s: Seq<EntryView>, i: int, j: int)
    requires
        0 <= i < j < listing::distinct(s).len(),
    ensures
        ({
            let (a, b) = (listing::distinct(s)[i], listing::distinct(s)[j]);
            &&& s.contains(a) && s.contains(b)
            &&& a.port == b.port && a.proto == b.proto ==> (a.pid is None || a.pid != b.pid)
                && !stack_pair(a, b)
        }),
{
    listing::law_one_row_per_listener(s);
    lemma_rows_were_found(s, i);
    lemma_rows_were_found(s, j);
    let r = listing::distinct(s);
    assert(!listing::same_listener(r[i], r[j]));
}

proof fn lemma_rows_were_found(s: Seq<EntryView>, i: int)
    requires
        0 <= i < listing::distinct(s).len(),
    ensures
        s.contains(listing::distinct(s)[i]),
    decreases s.len(),
{
    let t = listing::distinct(s.drop_last());
    let r = listing::distinct(s);
    if i < t.len() {
        lemma_rows_were_found(s.drop_last(), i);
        assert(r[i] == t[i]);
        let k = choose|k: int| 0 <= k < s.drop_last().len() && s.drop_last()[k] == t[i];
        assert(s[k] == t[i]);
    } else {
        assert(s[s.len() - 1] == r[i]);
    }
}

/// A socket has its own row unless an earlier one on its port and protocol is
/// of the same process, or of the same container on the other IP stack.
pub proof fn law_new_listeners_have_their_own_rows(s: Seq<EntryView>, i: int)
    requires
        0 <= i < s.len(),
        forall|k: int|
            0 <= k < i ==> !((#[trigger] s[k]).port == s[i].port && s[k].proto == s[i].proto && (
            s[i].pid is Some && s[k].pid == s[i].pid || stack_pair(s[k], s[i]))),
    ensures
        listing::distinct(s).contains(s[i]),
    decreases s.len(),
{
    let front = s.drop_last();
    let t = listing::distinct(front);
    let r = listing::distinct(s);
    if i < front.len() {
        assert(front[i] == s[i]);
        assert forall|k: int| 0 <= k < i implies !((#[trigger] front[k]).port == front[i].port
            && front[k].proto == front[i].proto && (front[i].pid is Some && front[k].pid
            == front[i].pid || stack_pair(front[k], front[i]))) by {
            assert(front[k] == s[k]);
        }
        law_new_listeners_have_their_own_rows(front, i);
        let j = choose|j: int| 0 <= j < t.len() && t[j] == s[i];
        assert(r[j] == t[j]);
    } else {
        if listing::listed(t, s.last()) {
            let j = choose|j: int|
                0 <= j < t.len() && listing::same_listener(#[trigger] t[j], s.last());
            lemma_rows_were_found(front, j);
            let k = choose|k: int| 0 <= k < front.len() && front[k] == t[j];
            assert(s[k] == t[j]);
        }
        assert(r[t.len() as int] == s[i]);
    }
}

/// Every socket is represented: some row has its port and protocol and is
/// itself, of the same process, or of the same container on the other IP
/// stack.
pub proof fn law_every_socket_is_represented(s: Seq<EntryView>, i: int)
    requires
        0 <= i < s.len(),
    ensures
        exists|j: int|
            0 <= j < listing::distinct(s).len() && (#[trigger] listing::distinct(s)[j]).port
                == s[i].port && listing::distinct(s)[j].proto == s[i].proto && (
            listing::distinct(s)[j] == s[i] || s[i].pid is Some && listing::distinct(s)[j].pid
                == s[i].pid || stack_pair(listing::distinct(s)[j], s[i])),
{
    listing::law_every_listener_has_a_row(s, i);
    let r = listing::distinct(s);
    let j = choose|j: int|
        0 <= j < r.len() && (#[trigger] r[j] == s[i] || listing::same_listener(r[j], s[i]));
    assert(r[j].port == s[i].port);
}

// ---------------------------------------------------------------------------
// What a mode is about
// ---------------------------------------------------------------------------

proof fn lemma_filter_contains(s: Seq<EntryView>, p: spec_fn(EntryView) -> bool, e: EntryView)
    ensures
        s.filter(p).contains(e) <==> s.contains(e) && p(e),
    decreases s.len(),
{
    reveal(Seq::filter);
    if s.len() > 0 {
        let front = s.drop_last();
        let (f, r) = (front.filter(p), s.filter(p));
        lemma_filter_contains(front, p, e);
        if s.contains(e) && p(e) {
            if e == s.last() {
                assert(r[r.len() - 1] == e);
            } else {
                let k = choose|k: int| 0 <= k < s.len() && s[k] == e;
                assert(front[k] == e);
                let m = choose|m: int| 0 <= m < f.len() && f[m] == e;
                assert(r[m] == e);
            }
        }
        if r.contains(e) {
            let m = choose|m: int| 0 <= m < r.len() && r[m] == e;
            if m < f.len() {
                assert(f[m] == e);
                let k = choose|k: int| 0 <= k < front.len() && front[k] == e;
                assert(s[k] == e);
            } else {
                assert(s[s.len() - 1] == e);
            }
        }
    }
}

proof fn lemma_sorted_contains(s: Seq<EntryView>, by: RowOrder, e: EntryView)
    ensures
        order::sorted(s, by).contains(e) <==> s.contains(e),
{
    order::law_sorted_keeps_rows(s, by);
    vstd::seq_lib::to_multiset_contains(s, e);
    vstd::seq_lib::to_multiset_contains(order::sorted(s, by), e);
}

/// A query for some ports, or an order to free them, is about sockets that
/// were found on these ports and about no others.
pub proof fn law_only_requested_ports(
    s: Seq<EntryView>,
    ports: Seq<u32>,
    force: bool,
    yes: bool,
    e: EntryView,
)
    ensures
        listing::selected(s, ModeView::Info { ports }).contains(e) ==> ports.contains(e.port)
            && s.contains(e),
        listing::selected(s, ModeView::Kill { ports, force, yes }).contains(e)
            ==> ports.contains(e.port) && s.contains(e),
{
    let sorted = order::sorted(s, RowOrder::Ports);
    let t = listing::distinct(sorted);
    let info = ModeView::Info { ports };
    let kill = ModeView::Kill { ports, force, yes };
    lemma_filter_contains(t, |x: EntryView| listing::wanted(x, info), e);
    lemma_filter_contains(t, |x: EntryView| listing::wanted(x, kill), e);
    if t.contains(e) {
        let k = choose|k: int| 0 <= k < t.len() && t[k] == e;
        lemma_rows_were_found(sorted, k);
        lemma_sorted_contains(s, RowOrder::Ports, e);
    }
}

/// Every socket on a requested port is among the listeners of the query, by
/// itself, by its process or by its container; the dashboard is about every
/// port.
pub proof fn law_every_requested_socket(s: Seq<EntryView>, mode: ModeView, e: EntryView)
    requires
        s.contains(e),
        match mode {
            ModeView::Dashboard { .. } => true,
            ModeView::Info { ports } => ports.contains(e.port),
            ModeView::Kill { ports, .. } => ports.contains(e.port),
        },
    ensures
        exists|f: EntryView| #[trigger]
            listing::selected(s, mode).contains(f) && f.port == e.port && f.proto == e.proto && (f
                == e || e.pid is Some && f.pid == e.pid || stack_pair(f, e)),
{
    let sorted = order::sorted(s, RowOrder::Ports);
    let t = listing::distinct(sorted);
    lemma_sorted_contains(s, RowOrder::Ports, e);
    let i = choose|i: int| 0 <= i < sorted.len() && sorted[i] == e;
    law_every_socket_is_represented(sorted, i);
    let j = choose|j: int|
        0 <= j < t.len() && (#[trigger] t[j]).port == e.port && t[j].proto == e.proto && (t[j] == e
            || e.pid is Some && t[j].pid == e.pid || stack_pair(t[j], e));
    assert(t.contains(t[j]));
    lemma_filter_contains(t, |x: EntryView| listing::wanted(x, mode), t[j]);
    assert(listing::selected(s, mode).contains(t[j]));
}

/// A query shows every listener that it is about; the plain dashboard leaves
/// out the processes that are neither containers nor launched by a user, and
/// the full one leaves out nothing.
pub proof fn law_shown_rows(
    s: Seq<EntryView>,
    ports: Seq<u32>,
    force: bool,
    yes: bool,
    e: EntryView,
)
    ensures
        listing::arranged(s, ModeView::Info { ports }).contains(e) <==> s.contains(e),
        listing::arranged(s, ModeView::Kill { ports, force, yes }).contains(e)
            <==> s.contains(e),
        listing::arranged(s, ModeView::Dashboard { dev: true }).contains(e) <==> s.contains(e),
        listing::arranged(s, ModeView::Dashboard { dev: false }).contains(e) <==> s.contains(e) && (
        e.docker is Some || e.user_launched),
{
    lemma_arranged(s, ModeView::Info { ports }, e);
    lemma_arranged(s, ModeView::Kill { ports, force, yes }, e);
    lemma_arranged(s, ModeView::Dashboard { dev: true }, e);
    lemma_arranged(s, ModeView::Dashboard { dev: false }, e);
}

proof fn lemma_arranged(s: Seq<EntryView>, mode: ModeView, e: EntryView)
    ensures
        listing::arranged(s, mode).contains(e) <==> s.contains(e) && listing::shown(e, mode),
{
    let p = |x: EntryView| listing::shown(x, mode);
    lemma_filter_contains(s, p, e);
    lemma_sorted_contains(s.filter(p), RowOrder::Groups, e);
}

} // verus!
