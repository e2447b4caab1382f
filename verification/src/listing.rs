//! Which listeners are shown, and in what order.

use vstd::prelude::*;
use crate::args::{Mode, ModeView};
use crate::kill::has_number;
use crate::model;
use crate::model::{Entry, EntryView};
use crate::order;
use crate::order::{sort_rows, RowOrder};
use crate::process;
use crate::process::ProcessView;
use crate::text::same_str;

verus! {

// ---------------------------------------------------------------------------
// One row per listener
// ---------------------------------------------------------------------------

/// Whether two addresses are all of one IP stack and all of the other.
pub open spec fn whole_stacks(a: Seq<char>, b: Seq<char>) -> bool {
    ||| a == "0.0.0.0"@ && b == "::"@
    ||| a == "::"@ && b == "0.0.0.0"@
}

/// Whether two sockets are those of one container published on all of both
/// IP stacks.
pub open spec fn dual_stack(a: EntryView, b: EntryView) -> bool {
    whole_stacks(a.addr, b.addr) && (match (a.docker, b.docker) {
        (Some(c), Some(d)) => c.name == d.name,
        _ => false,
    })
}

/// Whether two sockets are one listener: the same port, and the same known
/// process or a container on both IP stacks. Other sockets of unknown
/// processes are never taken for one.
pub open spec fn same_listener(a: EntryView, b: EntryView) -> bool {
    a.port == b.port && a.proto == b.proto && (a.pid is Some && a.pid == b.pid || dual_stack(a, b))
}

/// Whether a listener that is the same as `e` is in `s`.
pub open spec fn listed(s: Seq<EntryView>, e: EntryView) -> bool {
    exists|i: int| 0 <= i < s.len() && same_listener(#[trigger] s[i], e)
}

/// The sockets `s` with only the first of each listener.
pub open spec fn distinct(s: Seq<EntryView>) -> Seq<EntryView>
    decreases s.len(),
{
    if s.len() == 0 {
        s
    } else {
        let t = distinct(s.drop_last());
        if listed(t, s.last()) {
            t
        } else {
            t.push(s.last())
        }
    }
}

fn is_same_listener(a: &Entry, b: &Entry) -> (r: bool)
    ensures
        r == same_listener(a@, b@),
{
    if a.port != b.port || a.proto != b.proto {
        return false;
    }
    if let (Some(p), Some(q)) = (a.pid, b.pid) {
        if p == q {
            return true;
        }
    }
    let (x, y) = (a.addr.as_str(), b.addr.as_str());
    let whole: bool = (same_str(x, "0.0.0.0") && same_str(y, "::")) || (same_str(x, "::")
        && same_str(y, "0.0.0.0"));
    match (&a.docker, &b.docker) {
        (Some(c), Some(d)) => whole && same_str(c.name.as_str(), d.name.as_str()),
        _ => false,
    }
}

/// Whether the first `n` of `entries` hold the listener at `n`.
fn is_listed(entries: &Vec<Entry>, n: usize) -> (r: bool)
    requires
        n < entries.len(),
    ensures
        r == listed(model::views(entries@).take(n as int), entries@[n as int]@),
{
    let ghost s = model::views(entries@).take(n as int);
    let mut i: usize = 0;
    while i < n
        invariant
            i <= n < entries.len(),
            s == model::views(entries@).take(n as int),
            forall|k: int| 0 <= k < i ==> !same_listener(#[trigger] s[k], entries@[n as int]@),
        decreases n - i,
    {
        assert(s[i as int] == entries@[i as int]@);
        if is_same_listener(&entries[i], &entries[n]) {
            return true;
        }
        i += 1;
    }
    false
}

/// Keeps only the first socket of each listener.
pub fn merge_sockets(entries: &mut Vec<Entry>)
    ensures
        model::views(final(entries)@) == distinct(model::views(old(entries)@)),
{
    let ghost whole = model::views(entries@);
    let ghost mut seen: int = 0;
    let mut i: usize = 0;
    assert(whole.take(0) =~= Seq::<EntryView>::empty());
    while i < entries.len()
        invariant
            0 <= seen <= whole.len(),
            i <= entries.len(),
            distinct(whole.take(seen)).len() == i,
            entries@.len() - i == whole.len() - seen,
            model::views(entries@) =~= distinct(whole.take(seen)) + whole.skip(seen),
        decreases entries@.len() - i,
    {
        let ghost t = distinct(whole.take(seen));
        let ghost held = entries@;
        assert(whole.take(seen + 1).drop_last() =~= whole.take(seen));
        assert(model::views(held).take(i as int) =~= t);
        assert(held[i as int]@ == whole[seen]) by {
            assert(model::views(held)[i as int] == whole.skip(seen)[0]);
        }
        if is_listed(entries, i) {
            entries.remove(i);
            assert(model::views(entries@) =~= model::views(held).remove(i as int));
            assert((t + whole.skip(seen)).remove(i as int) =~= t + whole.skip(seen + 1));
        } else {
            i += 1;
            assert(t + whole.skip(seen) =~= t.push(whole[seen]) + whole.skip(seen + 1));
        }
        proof {
            seen = seen + 1;
        }
    }
    assert(whole.take(seen) =~= whole);
    assert(distinct(whole) + whole.skip(seen) =~= distinct(whole));
}

/// No listener has two rows: the two sockets of a container published on both
/// IP stacks, or those of one process, come out as one.
pub proof fn law_one_row_per_listener(s: Seq<EntryView>)
    ensures
        forall|i: int, j: int|
            0 <= i < j < distinct(s).len() ==> !same_listener(
                #[trigger] distinct(s)[i],
                #[trigger] distinct(s)[j],
            ),
    decreases s.len(),
{
    if s.len() > 0 {
        law_one_row_per_listener(s.drop_last());
        let t = distinct(s.drop_last());
        let r = distinct(s);
        assert forall|i: int, j: int| 0 <= i < j < r.len() implies !same_listener(
            #[trigger] r[i],
            #[trigger] r[j],
        ) by {
            assert(r[i] == t[i]);
            if j < t.len() {
                assert(r[j] == t[j]);
            }
        }
    }
}

/// Every listener has a row: its own socket or an earlier one of it.
pub proof fn law_every_listener_has_a_row(s: Seq<EntryView>, i: int)
    requires
        0 <= i < s.len(),
    ensures
        exists|j: int|
            0 <= j < distinct(s).len() && (#[trigger] distinct(s)[j] == s[i] || same_listener(
                distinct(s)[j],
                s[i],
            )),
    decreases s.len(),
{
    let t = distinct(s.drop_last());
    let r = distinct(s);
    if i < s.len() - 1 {
        law_every_listener_has_a_row(s.drop_last(), i);
        let j = choose|j: int|
            0 <= j < t.len() && (#[trigger] t[j] == s.drop_last()[i] || same_listener(
                t[j],
                s.drop_last()[i],
            ));
        assert(s.drop_last()[i] == s[i]);
        assert(r[j] == t[j]);
    } else if listed(t, s.last()) {
        let j = choose|j: int| 0 <= j < t.len() && same_listener(#[trigger] t[j], s.last());
        assert(r[j] == t[j]);
    } else {
        assert(r[t.len() as int] == s[i]);
    }
}

/// Whether nothing tells which process a socket belongs to: its process is
/// unknown, and it is not one of a container on all of an IP stack.
pub open spec fn is_unknown(e: EntryView) -> bool {
    e.pid is None && (e.docker is None || (e.addr != "0.0.0.0"@ && e.addr != "::"@))
}

/// Sockets of unknown processes all keep their rows.
pub proof fn law_unknown_processes_keep_their_rows(s: Seq<EntryView>)
    ensures
        distinct(s).filter(|e: EntryView| is_unknown(e)) == s.filter(|e: EntryView| is_unknown(e)),
    decreases s.len(),
{
    reveal(Seq::filter);
    if s.len() > 0 {
        let p = |e: EntryView| is_unknown(e);
        let t = distinct(s.drop_last());
        law_unknown_processes_keep_their_rows(s.drop_last());
        if listed(t, s.last()) {
            assert(!p(s.last()));
        } else {
            assert(t.push(s.last()).drop_last() =~= t);
        }
    }
}

// ---------------------------------------------------------------------------
// Filters
// ---------------------------------------------------------------------------

/// Whether the mode is about `port`.
pub open spec fn asks_for(mode: ModeView, port: u32) -> bool {
    match mode {
        ModeView::Dashboard { .. } => true,
        ModeView::Info { ports } => ports.contains(port),
        ModeView::Kill { ports, .. } => ports.contains(port),
    }
}

/// Whether the mode asks for the listener `e` at all.
pub open spec fn wanted(e: EntryView, mode: ModeView) -> bool {
    asks_for(mode, e.port)
}

/// Whether the mode shows the listener `e` once its process is known.
pub open spec fn shown(e: EntryView, mode: ModeView) -> bool {
    match mode {
        ModeView::Dashboard { dev: false } => e.docker is Some || e.user_launched,
        _ => true,
    }
}

/// The listeners that the mode is about, found on the sockets `s`.
pub open spec fn selected(s: Seq<EntryView>, mode: ModeView) -> Seq<EntryView> {
    distinct(order::sorted(s, RowOrder::Ports)).filter(|e: EntryView| wanted(e, mode))
}

/// The rows that the mode shows of the listeners `s`.
pub open spec fn arranged(s: Seq<EntryView>, mode: ModeView) -> Seq<EntryView> {
    order::sorted(s.filter(|e: EntryView| shown(e, mode)), RowOrder::Groups)
}

fn is_wanted(e: &Entry, mode: &Mode) -> (r: bool)
    ensures
        r == wanted(e@, mode@),
{
    match mode {
        Mode::Dashboard { .. } => true,
        Mode::Info { ports } => has_number(ports, e.port),
        Mode::Kill { ports, .. } => has_number(ports, e.port),
    }
}

fn is_shown(e: &Entry, mode: &Mode) -> (r: bool)
    ensures
        r == shown(e@, mode@),
{
    match mode {
        Mode::Dashboard { dev } => *dev || e.docker.is_some() || e.user_launched,
        _ => true,
    }
}

/// One step of a filter: what follows the part that has been gone through.
proof fn lemma_filter_step(s: Seq<EntryView>, i: int, p: spec_fn(EntryView) -> bool)
    requires
        0 <= i < s.len(),
    ensures
        s.take(i + 1).filter(p) == if p(s[i]) {
            s.take(i).filter(p).push(s[i])
        } else {
            s.take(i).filter(p)
        },
{
    reveal(Seq::filter);
    assert(s.take(i + 1).drop_last() =~= s.take(i));
    assert(s.take(i + 1).last() == s[i]);
}

/// Keeps the rows that `keep` finds to have the property `p`, in order.
fn keep_rows(
    entries: &mut Vec<Entry>,
    keep: impl Fn(&Entry) -> bool,
    Ghost(p): Ghost<spec_fn(EntryView) -> bool>,
)
    requires
        forall|e: &Entry| #[trigger] call_requires(keep, (e,)),
        forall|e: &Entry, r: bool| #[trigger] call_ensures(keep, (e,), r) ==> r == p(e@),
    ensures
        model::views(final(entries)@) == model::views(old(entries)@).filter(p),
{
    let ghost whole = model::views(entries@);
    let ghost mut seen: int = 0;
    let mut i: usize = 0;
    proof {
        reveal(Seq::filter);
    }
    assert(whole.take(0) =~= Seq::<EntryView>::empty());
    while i < entries.len()
        invariant
            forall|e: &Entry| #[trigger] call_requires(keep, (e,)),
            forall|e: &Entry, r: bool| #[trigger] call_ensures(keep, (e,), r) ==> r == p(e@),
            0 <= seen <= whole.len(),
            i <= entries.len(),
            whole.take(seen).filter(p).len() == i,
            entries@.len() - i == whole.len() - seen,
            model::views(entries@) =~= whole.take(seen).filter(p) + whole.skip(seen),
        decreases entries@.len() - i,
    {
        let ghost t = whole.take(seen).filter(p);
        let ghost held = entries@;
        proof {
            lemma_filter_step(whole, seen, p);
        }
        assert(held[i as int]@ == whole[seen]) by {
            assert(model::views(held)[i as int] == whole.skip(seen)[0]);
        }
        if keep(&entries[i]) {
            i += 1;
            assert(t + whole.skip(seen) =~= t.push(whole[seen]) + whole.skip(seen + 1));
        } else {
            entries.remove(i);
            assert(model::views(entries@) =~= model::views(held).remove(i as int));
            assert((t + whole.skip(seen)).remove(i as int) =~= t + whole.skip(seen + 1));
        }
        proof {
            seen = seen + 1;
        }
    }
    assert(whole.take(seen) =~= whole);
    assert(whole.filter(p) + whole.skip(seen) =~= whole.filter(p));
}

/// Reduces the sockets that were found to the listeners that the mode is
/// about, by port.
pub fn select_listeners(entries: &mut Vec<Entry>, mode: &Mode)
    ensures
        model::views(final(entries)@) == selected(model::views(old(entries)@), mode@),
{
    sort_rows(entries, RowOrder::Ports);
    merge_sockets(entries);
    let keep = |e: &Entry| -> (r: bool)
        ensures
            r == wanted(e@, mode@),
        { is_wanted(e, mode) };
    keep_rows(entries, keep, Ghost(|e: EntryView| wanted(e, mode@)));
}

/// Reduces the listeners to the rows that the mode shows, by group.
pub fn arrange_rows(entries: &mut Vec<Entry>, mode: &Mode)
    ensures
        model::views(final(entries)@) == arranged(model::views(old(entries)@), mode@),
{
    let keep = |e: &Entry| -> (r: bool)
        ensures
            r == shown(e@, mode@),
        { is_shown(e, mode) };
    keep_rows(entries, keep, Ghost(|e: EntryView| shown(e, mode@)));
    sort_rows(entries, RowOrder::Groups);
}

/// The rows of a group stand next to each other.
pub proof fn law_groups_are_blocks(s: Seq<EntryView>, mode: ModeView, i: int, j: int, k: int)
    requires
        0 <= i <= j <= k < arranged(s, mode).len(),
        order::group_of(arranged(s, mode)[i]) == order::group_of(arranged(s, mode)[k]),
    ensures
        order::group_of(arranged(s, mode)[j]) == order::group_of(arranged(s, mode)[i]),
{
    let r = arranged(s, mode);
    order::law_sorted_is_in_order(
        s.filter(|e: EntryView| shown(e, mode)),
        RowOrder::Groups,
    );
    if i < j && j < k {
        assert(!order::before(r[j], r[i], RowOrder::Groups));
        assert(!order::before(r[k], r[j], RowOrder::Groups));
        order::lemma_text_order(order::group_of(r[i]), order::group_of(r[j]));
    }
}

/// The dashboard shows exactly the containers and the servers that a user
/// launched, each as often as it was found.
pub proof fn law_dashboard_shows_user_servers(s: Seq<EntryView>, e: EntryView)
    ensures
        arranged(s, ModeView::Dashboard { dev: false }).to_multiset().count(e) == if e.docker
            is Some || e.user_launched {
            s.to_multiset().count(e)
        } else {
            0
        },
        arranged(s, ModeView::Dashboard { dev: true }).to_multiset() == s.to_multiset(),
{
    let some = ModeView::Dashboard { dev: false };
    let all = ModeView::Dashboard { dev: true };
    let p = |x: EntryView| shown(x, some);
    let q = |x: EntryView| shown(x, all);
    order::law_sorted_keeps_rows(s.filter(p), RowOrder::Groups);
    order::law_sorted_keeps_rows(s.filter(q), RowOrder::Groups);
    lemma_filter_count(s, p, e);
    lemma_filter_all(s, q);
}

proof fn lemma_filter_all(s: Seq<EntryView>, p: spec_fn(EntryView) -> bool)
    requires
        forall|i: int| 0 <= i < s.len() ==> p(#[trigger] s[i]),
    ensures
        s.filter(p) == s,
    decreases s.len(),
{
    reveal(Seq::filter);
    if s.len() > 0 {
        assert forall|i: int| 0 <= i < s.drop_last().len() implies p(
            #[trigger] s.drop_last()[i],
        ) by {
            assert(s.drop_last()[i] == s[i]);
        }
        lemma_filter_all(s.drop_last(), p);
        assert(p(s[s.len() - 1]));
        assert(s.drop_last().push(s.last()) =~= s);
    }
}

proof fn lemma_filter_count(s: Seq<EntryView>, p: spec_fn(EntryView) -> bool, e: EntryView)
    ensures
        s.filter(p).to_multiset().count(e) == if p(e) {
            s.to_multiset().count(e)
        } else {
            0
        },
    decreases s.len(),
{
    reveal(Seq::filter);
    s.to_multiset_ensures();
    if s.len() > 0 {
        lemma_filter_count(s.drop_last(), p, e);
        assert(s =~= s.drop_last().push(s.last()));
        vstd::seq_lib::to_multiset_build(s.drop_last(), s.last());
        vstd::seq_lib::to_multiset_build(s.drop_last().filter(p), s.last());
    }
}

/// A query for some ports shows the listeners on them that the whole list
/// holds, and nothing else.
pub proof fn law_query_is_part_of_the_list(s: Seq<EntryView>, mode: ModeView, e: EntryView)
    ensures
        selected(s, mode).to_multiset().count(e) == if wanted(e, mode) {
            selected(s, ModeView::Dashboard { dev: true }).to_multiset().count(e)
        } else {
            0
        },
{
    let all = ModeView::Dashboard { dev: true };
    let t = distinct(order::sorted(s, RowOrder::Ports));
    lemma_filter_count(t, |x: EntryView| wanted(x, mode), e);
    lemma_filter_all(t, |x: EntryView| wanted(x, all));
}

/// Reading the processes of the requested ports alone shows the same rows as
/// reading those of all ports.
pub proof fn law_query_may_read_less(
    s: Seq<EntryView>,
    info: Seq<ProcessView>,
    mode: ModeView,
)
    ensures
        s.map_values(|e: EntryView| process::with_process(e, info)).filter(
            |e: EntryView| wanted(e, mode),
        ) == s.filter(|e: EntryView| wanted(e, mode)).map_values(
            |e: EntryView| process::with_process(e, info),
        ),
    decreases s.len(),
{
    reveal(Seq::filter);
    let f = |e: EntryView| process::with_process(e, info);
    let p = |e: EntryView| wanted(e, mode);
    let t = s.map_values(f);
    if s.len() > 0 {
        law_query_may_read_less(s.drop_last(), info, mode);
        assert(t.drop_last() =~= s.drop_last().map_values(f));
        assert(t.last() == f(s.last()));
        assert(s.drop_last().filter(p).push(s.last()).map_values(f) =~= s.drop_last().filter(
            p,
        ).map_values(f).push(f(s.last())));
    } else {
        assert(t.filter(p) =~= s.filter(p).map_values(f));
    }
}

} // verus!
