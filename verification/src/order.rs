//! The orders in which listeners are listed, and the stable sort by them.

use vstd::prelude::*;
use crate::model;
use crate::model::{Entry, EntryView, Proto};
use crate::text::chars_of;

verus! {

// ---------------------------------------------------------------------------
// Comparing text
// ---------------------------------------------------------------------------

/// Whether `a` comes before `b` in the dictionary, character by character.
pub open spec fn text_before(a: Seq<char>, b: Seq<char>) -> bool
    decreases a.len(),
{
    if b.len() == 0 {
        false
    } else if a.len() == 0 {
        true
    } else if a[0] != b[0] {
        a[0] < b[0]
    } else {
        text_before(a.skip(1), b.skip(1))
    }
}

/// Of two different texts exactly one comes first.
pub proof fn lemma_text_order(a: Seq<char>, b: Seq<char>)
    ensures
        !(text_before(a, b) && text_before(b, a)),
        !text_before(a, b) && !text_before(b, a) ==> a == b,
    decreases a.len(),
{
    if a.len() > 0 && b.len() > 0 && a[0] == b[0] {
        lemma_text_order(a.skip(1), b.skip(1));
        if a.skip(1) == b.skip(1) {
            assert(a =~= seq![a[0]] + a.skip(1));
            assert(b =~= seq![b[0]] + b.skip(1));
        }
    } else if a.len() == 0 && b.len() == 0 {
        assert(a =~= b);
    }
}

/// The dictionary order is transitive.
pub proof fn lemma_text_transitive(a: Seq<char>, b: Seq<char>, c: Seq<char>)
    requires
        text_before(a, b),
        text_before(b, c),
    ensures
        text_before(a, c),
    decreases a.len(),
{
    if a.len() > 0 && a[0] == b[0] && b[0] == c[0] {
        lemma_text_transitive(a.skip(1), b.skip(1), c.skip(1));
    }
}

/// Whether `a` comes before `b` in the dictionary.
pub fn comes_before(a: &str, b: &str) -> (r: bool)
    ensures
        r == text_before(a@, b@),
{
    let x = chars_of(a);
    let y = chars_of(b);
    let mut i: usize = 0;
    assert(a@.skip(0) =~= a@);
    assert(b@.skip(0) =~= b@);
    while i < x.len() && i < y.len() && x[i] == y[i]
        invariant
            x@ == a@,
            y@ == b@,
            i <= x@.len(),
            i <= y@.len(),
            text_before(a@, b@) == text_before(a@.skip(i as int), b@.skip(i as int)),
        decreases x@.len() - i,
    {
        assert(a@.skip(i as int).skip(1) =~= a@.skip(i + 1));
        assert(b@.skip(i as int).skip(1) =~= b@.skip(i + 1));
        i += 1;
    }
    if i >= y.len() {
        false
    } else if i >= x.len() {
        true
    } else {
        assert(a@.skip(i as int)[0] == x@[i as int]);
        assert(b@.skip(i as int)[0] == y@[i as int]);
        x[i] < y[i]
    }
}

// ---------------------------------------------------------------------------
// Comparing listeners
// ---------------------------------------------------------------------------

/// What rows are sorted by.
#[derive(Clone, Copy, Debug, PartialEq, Eq, Structural)]
pub enum RowOrder {
    /// By port, protocol and process: the order in which listeners that are
    /// the same one meet.
    Ports,
    /// By visual group, container, port and protocol: the order in which
    /// rows are shown.
    Groups,
}

/// The group that a listener is shown in: the compose project of its
/// container, the container itself where there is none, or the working
/// directory of a local process.
pub open spec fn group_of(e: EntryView) -> Seq<char> {
    match e.docker {
        Some(d) => match d.compose_project {
            Some(p) => p,
            None => d.name,
        },
        None => e.cwd,
    }
}

/// The name of the container behind a listener; empty for a local process.
pub open spec fn container_name(e: EntryView) -> Seq<char> {
    match e.docker {
        Some(d) => d.name,
        None => Seq::empty(),
    }
}

/// The process of a listener, with an unknown one first.
pub open spec fn pid_or_zero(e: EntryView) -> u32 {
    match e.pid {
        Some(p) => p,
        None => 0,
    }
}

/// Whether `a` comes strictly before `b`.
pub open spec fn before(a: EntryView, b: EntryView, order: RowOrder) -> bool {
    match order {
        RowOrder::Ports => {
            ||| a.port < b.port
            ||| a.port == b.port && a.proto.rank() < b.proto.rank()
            ||| a.port == b.port && a.proto == b.proto && pid_or_zero(a) < pid_or_zero(b)
        },
        RowOrder::Groups => {
            ||| text_before(group_of(a), group_of(b))
            ||| group_of(a) == group_of(b) && text_before(container_name(a), container_name(b))
            ||| group_of(a) == group_of(b) && container_name(a) == container_name(b) && (a.port
                < b.port || a.port == b.port && a.proto.rank() < b.proto.rank())
        },
    }
}

/// Whether neither of two listeners comes before the other.
pub open spec fn level(a: EntryView, b: EntryView, order: RowOrder) -> bool {
    !before(a, b, order) && !before(b, a, order)
}

proof fn lemma_asymmetric(a: EntryView, b: EntryView, order: RowOrder)
    ensures
        !(before(a, b, order) && before(b, a, order)),
{
    lemma_text_order(group_of(a), group_of(b));
    lemma_text_order(container_name(a), container_name(b));
}

/// If `b` does not come before `a` and `c` not before `b`, then `c` does not
/// come before `a`.
proof fn lemma_not_before_transitive(a: EntryView, b: EntryView, c: EntryView, order: RowOrder)
    requires
        !before(b, a, order),
        !before(c, b, order),
    ensures
        !before(c, a, order),
{
    if before(c, a, order) {
        let (ga, gb, gc) = (group_of(a), group_of(b), group_of(c));
        let (na, nb, nc) = (container_name(a), container_name(b), container_name(c));
        lemma_text_order(ga, gb);
        lemma_text_order(gb, gc);
        lemma_text_order(ga, gc);
        lemma_text_order(na, nb);
        lemma_text_order(nb, nc);
        lemma_text_order(na, nc);
        if text_before(ga, gb) && text_before(gb, gc) {
            lemma_text_transitive(ga, gb, gc);
        }
        if text_before(na, nb) && text_before(nb, nc) {
            lemma_text_transitive(na, nb, nc);
        }
    }
}

/// The group that a listener is shown in.
pub fn group_key(e: &Entry) -> (r: &str)
    ensures
        r@ == group_of(e@),
{
    match &e.docker {
        Some(d) => match &d.compose_project {
            Some(p) => p.as_str(),
            None => d.name.as_str(),
        },
        None => e.cwd.as_str(),
    }
}

fn name_key(e: &Entry) -> (r: &str)
    ensures
        r@ == container_name(e@),
{
    match &e.docker {
        Some(d) => d.name.as_str(),
        None => {
            proof {
                reveal_strlit("");
            }
            assert(""@ =~= Seq::<char>::empty());
            ""
        },
    }
}

fn rank(p: Proto) -> (r: u8)
    ensures
        r == p.rank(),
{
    match p {
        Proto::Tcp => 0,
        Proto::Udp => 1,
    }
}

fn pid_key(e: &Entry) -> (r: u32)
    ensures
        r == pid_or_zero(e@),
{
    match e.pid {
        Some(p) => p,
        None => 0,
    }
}

/// Whether `a` comes strictly before `b`.
pub fn precedes(a: &Entry, b: &Entry, order: RowOrder) -> (r: bool)
    ensures
        r == before(a@, b@, order),
{
    let (ra, rb): (u8, u8) = (rank(a.proto), rank(b.proto));
    match order {
        RowOrder::Ports => {
            if a.port != b.port {
                a.port < b.port
            } else if ra != rb {
                ra < rb
            } else {
                pid_key(a) < pid_key(b)
            }
        },
        RowOrder::Groups => {
            let (ga, gb) = (group_key(a), group_key(b));
            let (na, nb) = (name_key(a), name_key(b));
            proof {
                lemma_text_order(ga@, gb@);
                lemma_text_order(na@, nb@);
            }
            if comes_before(ga, gb) {
                true
            } else if comes_before(gb, ga) {
                false
            } else if comes_before(na, nb) {
                true
            } else if comes_before(nb, na) {
                false
            } else {
                a.port < b.port || a.port == b.port && ra < rb
            }
        },
    }
}

// ---------------------------------------------------------------------------
// Sorting
// ---------------------------------------------------------------------------

/// Where `e` goes in the sorted rows `s`: behind everything that it does not
/// come before.
pub open spec fn slot(s: Seq<EntryView>, e: EntryView, order: RowOrder) -> nat
    decreases s.len(),
{
    if s.len() > 0 && before(e, s.last(), order) {
        slot(s.drop_last(), e, order)
    } else {
        s.len()
    }
}

/// The rows `s` in order; rows that are level stay as they were.
pub open spec fn sorted(s: Seq<EntryView>, order: RowOrder) -> Seq<EntryView>
    decreases s.len(),
{
    if s.len() == 0 {
        s
    } else {
        let t = sorted(s.drop_last(), order);
        t.insert(slot(t, s.last(), order) as int, s.last())
    }
}

/// Whether no row of `s` comes before an earlier one.
pub open spec fn in_order(s: Seq<EntryView>, order: RowOrder) -> bool {
    forall|i: int, j: int| 0 <= i < j < s.len() ==> !before(#[trigger] s[j], #[trigger] s[i], order)
}

proof fn lemma_slot(s: Seq<EntryView>, e: EntryView, order: RowOrder)
    requires
        in_order(s, order),
    ensures
        slot(s, e, order) <= s.len(),
        forall|i: int| 0 <= i < slot(s, e, order) ==> !before(e, #[trigger] s[i], order),
        forall|i: int| slot(s, e, order) <= i < s.len() ==> before(e, #[trigger] s[i], order),
    decreases s.len(),
{
    if s.len() > 0 && before(e, s.last(), order) {
        assert forall|i: int, j: int| 0 <= i < j < s.drop_last().len() implies !before(
            #[trigger] s.drop_last()[j],
            #[trigger] s.drop_last()[i],
            order,
        ) by {
            assert(s.drop_last()[j] == s[j]);
            assert(s.drop_last()[i] == s[i]);
        }
        lemma_slot(s.drop_last(), e, order);
        let k = slot(s, e, order);
        assert forall|i: int| 0 <= i < k implies !before(e, #[trigger] s[i], order) by {
            assert(s.drop_last()[i] == s[i]);
        }
        assert forall|i: int| k <= i < s.len() implies before(e, #[trigger] s[i], order) by {
            if i < s.len() - 1 {
                assert(s.drop_last()[i] == s[i]);
            }
        }
    } else if s.len() > 0 {
        assert forall|i: int| 0 <= i < s.len() implies !before(e, #[trigger] s[i], order) by {
            if i < s.len() - 1 {
                assert(!before(s[s.len() - 1], s[i], order));
                lemma_not_before_transitive(s[i], s.last(), e, order);
            }
        }
    }
}

/// Sorting puts the rows in order.
pub proof fn law_sorted_is_in_order(s: Seq<EntryView>, order: RowOrder)
    ensures
        in_order(sorted(s, order), order),
        sorted(s, order).len() == s.len(),
    decreases s.len(),
{
    if s.len() > 0 {
        let t = sorted(s.drop_last(), order);
        let e = s.last();
        law_sorted_is_in_order(s.drop_last(), order);
        lemma_slot(t, e, order);
        let k = slot(t, e, order) as int;
        let r = t.insert(k, e);
        assert forall|i: int, j: int| 0 <= i < j < r.len() implies !before(
            #[trigger] r[j],
            #[trigger] r[i],
            order,
        ) by {
            let ti = if i < k {
                i
            } else {
                i - 1
            };
            let tj = if j < k {
                j
            } else {
                j - 1
            };
            if i == k {
                assert(r[i] == e);
                assert(r[j] == t[tj]);
                lemma_asymmetric(e, t[tj], order);
            } else if j == k {
                assert(r[i] == t[ti]);
                assert(r[j] == e);
            } else {
                assert(r[i] == t[ti]);
                assert(r[j] == t[tj]);
            }
        }
    }
}

/// Sorting neither drops nor adds a row.
pub proof fn law_sorted_keeps_rows(s: Seq<EntryView>, order: RowOrder)
    ensures
        sorted(s, order).to_multiset() == s.to_multiset(),
    decreases s.len(),
{
    if s.len() > 0 {
        let t = sorted(s.drop_last(), order);
        let e = s.last();
        law_sorted_keeps_rows(s.drop_last(), order);
        law_sorted_is_in_order(s.drop_last(), order);
        lemma_slot(t, e, order);
        t.to_multiset_ensures();
        let k = slot(t, e, order) as int;
        vstd::seq_lib::to_multiset_insert(t, k, e);
        s.drop_last().to_multiset_ensures();
        assert(s =~= s.drop_last().push(e));
        assert(s.drop_last().push(e).to_multiset() =~= s.drop_last().to_multiset().insert(e));
    }
}

/// Rows that are level stay in the order in which they came.
pub proof fn law_sorted_is_stable(s: Seq<EntryView>, e: EntryView, order: RowOrder)
    ensures
        sorted(s, order).filter(|x: EntryView| level(x, e, order)) == s.filter(
            |x: EntryView| level(x, e, order),
        ),
    decreases s.len(),
{
    if s.len() > 0 {
        let p = |x: EntryView| level(x, e, order);
        let t = sorted(s.drop_last(), order);
        let last = s.last();
        law_sorted_is_stable(s.drop_last(), e, order);
        law_sorted_is_in_order(s.drop_last(), order);
        lemma_slot(t, last, order);
        let k = slot(t, last, order) as int;
        let (front, back) = (t.take(k), t.skip(k));
        assert(t =~= front + back);
        assert(t.insert(k, last) =~= front + seq![last] + back);
        Seq::filter_distributes_over_add(front, back, p);
        Seq::filter_distributes_over_add(front, seq![last], p);
        Seq::filter_distributes_over_add(front + seq![last], back, p);
        assert(s =~= s.drop_last() + seq![last]);
        Seq::filter_distributes_over_add(s.drop_last(), seq![last], p);
        if p(last) {
            assert forall|i: int| 0 <= i < back.len() implies !p(#[trigger] back[i]) by {
                assert(back[i] == t[k + i]);
                assert(before(last, t[k + i], order));
                if p(back[i]) {
                    lemma_not_before_transitive(back[i], e, last, order);
                }
            }
            lemma_filter_none(back, p);
            assert(front.filter(p) + seq![last].filter(p) + back.filter(p) =~= front.filter(p)
                + back.filter(p) + seq![last].filter(p));
        } else {
            lemma_filter_none(seq![last], p);
            assert(front.filter(p) + seq![last].filter(p) + back.filter(p) =~= front.filter(p)
                + back.filter(p) + seq![last].filter(p));
        }
    }
}

proof fn lemma_filter_none(s: Seq<EntryView>, p: spec_fn(EntryView) -> bool)
    requires
        forall|i: int| 0 <= i < s.len() ==> !p(#[trigger] s[i]),
    ensures
        s.filter(p) == Seq::<EntryView>::empty(),
    decreases s.len(),
{
    reveal(Seq::filter);
    if s.len() > 0 {
        assert forall|i: int| 0 <= i < s.drop_last().len() implies !p(
            #[trigger] s.drop_last()[i],
        ) by {
            assert(s.drop_last()[i] == s[i]);
        }
        lemma_filter_none(s.drop_last(), p);
        assert(!p(s[s.len() - 1]));
    }
}

/// Sorts the rows; rows that are level stay as they were.
pub fn sort_rows(entries: &mut Vec<Entry>, order: RowOrder)
    ensures
        model::views(final(entries)@) == sorted(model::views(old(entries)@), order),
{
    let ghost whole = model::views(entries@);
    let n: usize = entries.len();
    let mut i: usize = 0;
    assert(whole.take(0) =~= Seq::<EntryView>::empty());
    while i < n
        invariant
            i <= n,
            n == entries@.len(),
            n == whole.len(),
            sorted(whole.take(i as int), order).len() == i,
            model::views(entries@) =~= sorted(whole.take(i as int), order) + whole.skip(i as int),
        decreases n - i,
    {
        let ghost t = sorted(whole.take(i as int), order);
        let ghost held = entries@;
        assert forall|j: int| 0 <= j < i implies (#[trigger] held[j])@ == t[j] by {
            assert(model::views(held)[j] == held[j]@);
        }
        assert(held[i as int]@ == whole[i as int]) by {
            assert(model::views(held)[i as int] == held[i as int]@);
            assert((t + whole.skip(i as int))[i as int] == whole.skip(i as int)[0]);
        }
        let e = entries.remove(i);
        let mut j: usize = i;
        assert(t.take(i as int) =~= t);
        while j > 0 && precedes(&e, &entries[j - 1], order)
            invariant
                i < n,
                n == held.len(),
                j <= i,
                entries@ == held.remove(i as int),
                t.len() == i,
                forall|m: int| 0 <= m < i ==> (#[trigger] held[m])@ == t[m],
                slot(t, e@, order) == slot(t.take(j as int), e@, order),
            decreases j,
        {
            assert(t.take(j as int).drop_last() =~= t.take(j - 1));
            assert(t.take(j as int).last() == held[j - 1]@);
            j -= 1;
        }
        proof {
            if j > 0 {
                assert(t.take(j as int).last() == held[j - 1]@);
            }
            assert(slot(t, e@, order) == j);
        }
        entries.insert(j, e);
        proof {
            assert(whole.take(i + 1).drop_last() =~= whole.take(i as int));
            assert(whole.take(i + 1).last() == e@);
            let r = sorted(whole.take(i + 1), order);
            assert(r == t.insert(j as int, e@));
            assert(model::views(entries@) =~= r + whole.skip(i + 1)) by {
                assert forall|m: int| 0 <= m < n implies model::views(entries@)[m] == (r
                    + whole.skip(i + 1))[m] by {
                    assert(forall|x: int|
                        i < x < n ==> (#[trigger] held[x])@ == model::views(held)[x]);
                    if m < j {
                        assert(entries@[m] == held[m]);
                    } else if m == j {
                        assert(entries@[m] == e);
                    } else if m <= i {
                        assert(entries@[m] == held[m - 1]);
                    } else {
                        assert(entries@[m] == held[m]);
                        assert(model::views(held)[m] == whole.skip(i as int)[m - i]);
                    }
                }
            }
        }
        i += 1;
    }
    assert(whole.take(i as int) =~= whole);
    assert(sorted(whole, order) + whole.skip(i as int) =~= sorted(whole, order));
}

} // verus!
