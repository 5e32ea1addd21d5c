use vstd::prelude::*;
use vstd::seq_lib::*;

use crate::collection;
use crate::collection::TimestampedValue;
use crate::index;
use crate::laws::rearranging;
use crate::laws::sessions;
use crate::laws::times;
use crate::laws::windows;
use crate::order;
use crate::plan;
use crate::timestamp;
use crate::timestamp::Timestamp;
use crate::window::{Window, WindowingStrategy};

verus! {

/// Two sequences that are ordered by the same strict relation and hold the
/// same items are equal.
pub proof fn lemma_ordered_unique<A>(s: Seq<A>, t: Seq<A>, before: spec_fn(A, A) -> bool)
    requires
        forall|x: A, y: A| #[trigger] before(x, y) ==> !before(y, x),
        forall|i: int, j: int| 0 <= i < j < s.len() ==> before(#[trigger] s[i], #[trigger] s[j]),
        forall|i: int, j: int| 0 <= i < j < t.len() ==> before(#[trigger] t[i], #[trigger] t[j]),
        forall|x: A| #[trigger] s.contains(x) <==> t.contains(x),
    ensures
        s == t,
    decreases s.len(),
{
    if s.len() == 0 {
        if t.len() > 0 {
            assert(t.contains(t[0]));
            assert(s.contains(t[0]));
        }
        assert(s =~= t);
    } else {
        assert(s.contains(s.last()));
        let j = choose|j: int| 0 <= j < t.len() && t[j] == s.last();
        assert(t.contains(t.last()));
        assert(s.contains(t.last()));
        let i = choose|i: int| 0 <= i < s.len() && s[i] == t.last();
        if j < t.len() - 1 {
            assert(before(t[j], t[t.len() - 1]));
            if i < s.len() - 1 {
                assert(before(s[i], s[s.len() - 1]));
            }
            assert(false);
        }
        let (s1, t1) = (s.drop_last(), t.drop_last());
        assert forall|x: A| #[trigger] s1.contains(x) <==> t1.contains(x) by {
            if s1.contains(x) {
                let a = choose|a: int| 0 <= a < s1.len() && s1[a] == x;
                assert(s[a] == x);
                assert(s.contains(x));
                let b = choose|b: int| 0 <= b < t.len() && t[b] == x;
                if b == t.len() - 1 {
                    assert(before(s[a], s[s.len() - 1]));
                }
                assert(t1[b] == x);
            }
            if t1.contains(x) {
                let b = choose|b: int| 0 <= b < t1.len() && t1[b] == x;
                assert(t[b] == x);
                assert(t.contains(x));
                assert(s.contains(x));
                let a = choose|a: int| 0 <= a < s.len() && s[a] == x;
                if a == s.len() - 1 {
                    assert(before(t[b], t[t.len() - 1]));
                }
                assert(s1[a] == x);
            }
        }
        lemma_ordered_unique(s1, t1, before);
        assert(s =~= s1.push(s.last()));
        assert(t =~= t1.push(t.last()));
    }
}

/// The windows of a list by windows are those that some position is related
/// to.
pub proof fn lemma_listed_windows(
    plan: Seq<(Window, Seq<int>)>,
    n: nat,
    p: spec_fn(int, Window) -> bool,
    i: int,
) -> (k: int)
    requires
        plan::lists_by_window(plan, n, p),
        0 <= i < plan.len(),
    ensures
        0 <= k < n,
        p(k, plan[i].0),
{
    let w = plan[i].0;
    assert(plan[i].1 == plan::members(n, p, w));
    index::lemma_positions(n, |k: int| p(k, w));
    let k = plan::members(n, p, w)[0];
    assert(p(k, w));
    k
}

/// A relation settles its list by windows.
pub proof fn lemma_lists_by_window_unique(
    a: Seq<(Window, Seq<int>)>,
    b: Seq<(Window, Seq<int>)>,
    n: nat,
    p: spec_fn(int, Window) -> bool,
)
    requires
        plan::lists_by_window(a, n, p),
        plan::lists_by_window(b, n, p),
    ensures
        a == b,
{
    let start = |entry: (Window, Seq<int>)| entry.0.start as int;
    let (s, t) = (a.map_values(start), b.map_values(start));
    assert forall|x: int| #[trigger] s.contains(x) <==> t.contains(x) by {
        if s.contains(x) {
            let i = choose|i: int| 0 <= i < s.len() && s[i] == x;
            let k = lemma_listed_windows(a, n, p, i);
            assert(plan::has_window(b, a[i].0));
            let j = choose|j: int| 0 <= j < b.len() && (#[trigger] b[j]).0 == a[i].0;
            assert(t[j] == x);
        }
        if t.contains(x) {
            let i = choose|i: int| 0 <= i < t.len() && t[i] == x;
            let k = lemma_listed_windows(b, n, p, i);
            assert(plan::has_window(a, b[i].0));
            let j = choose|j: int| 0 <= j < a.len() && (#[trigger] a[j]).0 == b[i].0;
            assert(s[j] == x);
        }
    }
    lemma_ordered_unique(s, t, |x: int, y: int| x < y);
    assert forall|i: int| 0 <= i < a.len() implies a[i] == b[i] by {
        assert(s[i] == t[i]);
        let k = lemma_listed_windows(a, n, p, i);
        assert(plan::has_window(b, a[i].0));
        let j = choose|j: int| 0 <= j < b.len() && (#[trigger] b[j]).0 == a[i].0;
        assert(t[j] == s[i]);
        if i < j {
            assert(b[i].0.start < b[j].0.start);
        } else if j < i {
            assert(b[j].0.start < b[i].0.start);
        }
    }
    assert(a =~= b);
}

/// There is one order in time only.
pub proof fn lemma_time_order_unique(times: Seq<Timestamp>, s: Seq<int>, t: Seq<int>)
    requires
        order::orders_range(times, s, 0, times.len() as int),
        order::orders_range(times, t, 0, times.len() as int),
    ensures
        s == t,
{
    assert forall|x: int| #[trigger] s.contains(x) <==> t.contains(x) by {
        if s.contains(x) {
            let i = choose|i: int| 0 <= i < s.len() && s[i] == x;
            assert(0 <= s[i] < times.len());
        }
        if t.contains(x) {
            let i = choose|i: int| 0 <= i < t.len() && t[i] == x;
            assert(0 <= t[i] < times.len());
            assert(s.contains(x));
        }
    }
    lemma_ordered_unique(s, t, |x: int, y: int| order::earlier(times, x, y));
}

/// The last session of one division is not longer than that of another.
proof fn lemma_last_session(
    a: Seq<(Window, Seq<int>)>,
    b: Seq<(Window, Seq<int>)>,
    times: Seq<Timestamp>,
    gap: int,
)
    requires
        plan::are_sessions(a, times, gap),
        plan::are_sessions(b, times, gap),
        a.len() > 0,
        b.len() > 0,
        plan::all_positions(a) == plan::all_positions(b),
    ensures
        a.last().1.len() <= b.last().1.len(),
{
    let all = plan::all_positions(a);
    let (a1, b1) = (a.drop_last(), b.drop_last());
    let (la, lb) = (a.last().1, b.last().1);
    plan::lemma_all_positions_push(a1, a.last());
    plan::lemma_all_positions_push(b1, b.last());
    assert(a1.push(a.last()) =~= a);
    assert(b1.push(b.last()) =~= b);
    assert(a[a.len() - 1] == a.last());
    assert(b[b.len() - 1] == b.last());
    if la.len() > lb.len() {
        assert(b1.len() > 0) by {
            if b1.len() == 0 {
                assert(plan::all_positions(b1) =~= Seq::<int>::empty()) by {
                    assert(b1.map_values(|entry: (Window, Seq<int>)| entry.1) =~= Seq::empty());
                }
            }
        }
        // The element just before the last session of `b` is the last of the
        // session before it, and lies within the last session of `a`.
        let b2 = b1.drop_last();
        plan::lemma_all_positions_push(b2, b1.last());
        assert(b2.push(b1.last()) =~= b1);
        assert(b[b.len() - 2] == b1.last());
        let cut = all.len() - lb.len();
        assert(all[cut] == lb.first());
        assert(plan::spans(times, gap, b[b.len() - 2]));
        assert(all[cut - 1] == b1.last().1.last());
        let offset = plan::all_positions(a1).len();
        assert(la[cut - offset] == all[cut]);
        assert(la[cut - 1 - offset] == all[cut - 1]);
        assert(plan::continues(times, gap, la[cut - 1 - offset], la[cut - offset]));
        assert(false);
    }
}

proof fn lemma_sessions_unique(
    a: Seq<(Window, Seq<int>)>,
    b: Seq<(Window, Seq<int>)>,
    times: Seq<Timestamp>,
    gap: int,
)
    requires
        plan::are_sessions(a, times, gap),
        plan::are_sessions(b, times, gap),
        plan::all_positions(a) == plan::all_positions(b),
    ensures
        a == b,
    decreases a.len(),
{
    if a.len() == 0 || b.len() == 0 {
        if a.len() > 0 {
            assert(plan::spans(times, gap, a[0]));
            let at = plan::lemma_flat_index(a, 0, 0);
            assert(plan::all_positions(b) =~= Seq::<int>::empty()) by {
                assert(b.map_values(|entry: (Window, Seq<int>)| entry.1) =~= Seq::empty());
            }
        }
        if b.len() > 0 {
            assert(plan::spans(times, gap, b[0]));
            let at = plan::lemma_flat_index(b, 0, 0);
            assert(plan::all_positions(a) =~= Seq::<int>::empty()) by {
                assert(a.map_values(|entry: (Window, Seq<int>)| entry.1) =~= Seq::empty());
            }
        }
        assert(a =~= b);
    } else {
        lemma_last_session(a, b, times, gap);
        lemma_last_session(b, a, times, gap);
        let all = plan::all_positions(a);
        let (a1, b1) = (a.drop_last(), b.drop_last());
        plan::lemma_all_positions_push(a1, a.last());
        plan::lemma_all_positions_push(b1, b.last());
        assert(a1.push(a.last()) =~= a);
        assert(b1.push(b.last()) =~= b);
        let cut = all.len() - a.last().1.len();
        assert(plan::all_positions(a1) =~= all.take(cut));
        assert(plan::all_positions(b1) =~= all.take(cut));
        assert(a.last().1 =~= all.skip(cut));
        assert(b.last().1 =~= all.skip(cut));
        assert forall|i: int| 0 <= i < a1.len() implies plan::spans(times, gap, #[trigger] a1[i])
            && plan::is_run(times, gap, a1[i].1) by {
            assert(a1[i] == a[i]);
        }
        assert forall|i: int| 0 <= i < b1.len() implies plan::spans(times, gap, #[trigger] b1[i])
            && plan::is_run(times, gap, b1[i].1) by {
            assert(b1[i] == b[i]);
        }
        assert forall|i: int, j: int|
            0 <= i && j == i + 1 && j < a1.len() implies !plan::continues(
            times,
            gap,
            (#[trigger] a1[i]).1.last(),
            (#[trigger] a1[j]).1.first(),
        ) by {
            assert(a1[i] == a[i] && a1[j] == a[j]);
        }
        assert forall|i: int, j: int|
            0 <= i && j == i + 1 && j < b1.len() implies !plan::continues(
            times,
            gap,
            (#[trigger] b1[i]).1.last(),
            (#[trigger] b1[j]).1.first(),
        ) by {
            assert(b1[i] == b[i] && b1[j] == b[j]);
        }
        lemma_sessions_unique(a1, b1, times, gap);
        assert(plan::spans(times, gap, a[a.len() - 1]));
        assert(plan::spans(times, gap, b[b.len() - 1]));
        assert(a.last().0 == b.last().0);
    }
}

/// A strategy and the event times settle the windows and the elements of each:
/// there is one plan only.
pub proof fn law_plan_is_unique(
    a: Seq<(Window, Seq<int>)>,
    b: Seq<(Window, Seq<int>)>,
    strategy: WindowingStrategy,
    times: Seq<Timestamp>,
)
    requires
        plan::is_plan(a, strategy, times),
        plan::is_plan(b, strategy, times),
    ensures
        a == b,
{
    match strategy {
        WindowingStrategy::Session { gap_secs } => {
            lemma_time_order_unique(times, plan::all_positions(a), plan::all_positions(b));
            lemma_sessions_unique(a, b, times, gap_secs as int);
        },
        _ => {
            lemma_lists_by_window_unique(a, b, times.len(), plan::covering(strategy, times));
        },
    }
}

/// Of a list by windows, the one for rearranged positions: the same windows,
/// each with the positions that name those listed.
proof fn lemma_lists_rearranged(
    plan: Seq<(Window, Seq<int>)>,
    moved: Seq<(Window, Seq<int>)>,
    n: nat,
    p: spec_fn(int, Window) -> bool,
    q: spec_fn(int, Window) -> bool,
    order: Seq<int>,
)
    requires
        rearranging::rearranges(order, n),
        plan::lists_by_window(plan, n, p),
        plan::lists_by_window(moved, n, q),
        forall|k: int, w: Window| 0 <= k < n ==> #[trigger] q(k, w) == p(order[k], w),
    ensures
        same_windows(plan, moved, n, order),
{
    let other = plan.map_values(
        |entry: (Window, Seq<int>)| (entry.0, plan::members(n, q, entry.0)),
    );
    assert forall|i: int| 0 <= i < other.len() implies {
        &&& (#[trigger] other[i]).1 == plan::members(n, q, other[i].0)
        &&& other[i].1.len() > 0
    } by {
        let w = plan[i].0;
        let x = lemma_listed_windows(plan, n, p, i);
        assert(order.contains(x));
        let k = choose|k: int| 0 <= k < order.len() && order[k] == x;
        assert(q(k, w));
        let f = |k: int| q(k, w);
        index::lemma_positions(n, f);
        assert(f(k));
        assert(plan::members(n, q, w).contains(k));
    }
    assert forall|k: int, w: Window| 0 <= k < n && #[trigger] q(k, w) implies plan::has_window(
        other,
        w,
    ) by {
        assert(p(order[k], w));
        assert(plan::has_window(plan, w));
        let i = choose|i: int| 0 <= i < plan.len() && (#[trigger] plan[i]).0 == w;
        assert(other[i].0 == w);
    }
    lemma_lists_by_window_unique(moved, other, n, q);
    assert forall|i: int| 0 <= i < plan.len() implies #[trigger] plan[i].0 == moved[i].0 by {
        assert(other[i].0 == plan[i].0);
    }
    assert forall|i: int, k: int| 0 <= i < plan.len() && 0 <= k < n implies (
    #[trigger] moved[i].1.contains(k) <==> plan[i].1.contains(order[k])) by {
        windows::lemma_member(moved, n, q, i, k);
        windows::lemma_member(plan, n, p, i, order[k]);
        assert(plan[i].0 == moved[i].0);
    }
}

/// Whether two plans have the same windows, the second with the positions that
/// name those of the first.
pub open spec fn same_windows(
    plan: Seq<(Window, Seq<int>)>,
    moved: Seq<(Window, Seq<int>)>,
    n: nat,
    order: Seq<int>,
) -> bool {
    &&& moved.len() == plan.len()
    &&& forall|i: int| 0 <= i < plan.len() ==> #[trigger] plan[i].0 == moved[i].0
    &&& forall|i: int, k: int|
        0 <= i < plan.len() && 0 <= k < n ==> (#[trigger] moved[i].1.contains(k)
            <==> plan[i].1.contains(order[k]))
}

/// The event times in time order are the same however they were given.
proof fn lemma_sorted_times(times: Seq<Timestamp>, order: Seq<int>, s: Seq<int>, t: Seq<int>)
    requires
        rearranging::rearranges(order, times.len()),
        order::orders_range(times, s, 0, times.len() as int),
        order::orders_range(rearranging::picked(times, order), t, 0, times.len() as int),
    ensures
        s.len() == times.len(),
        t.len() == times.len(),
        rearranging::picked(times, s) == rearranging::picked(
            rearranging::picked(times, order),
            t,
        ),
{
    let moved = rearranging::picked(times, order);
    lemma_order_rearranges(times, s);
    lemma_order_rearranges(moved, t);
    rearranging::lemma_rearranged(times, order);
    rearranging::lemma_rearranged(times, s);
    rearranging::lemma_rearranged(moved, t);
    let leq = |a: Timestamp, b: Timestamp| a.rank() <= b.rank();
    assert forall|a: Timestamp, b: Timestamp| #[trigger] leq(a, b) && #[trigger] leq(
        b,
        a,
    ) implies a == b by {
        times::law_rank_is_total(a, b);
    }
    let (x, y) = (rearranging::picked(times, s), rearranging::picked(moved, t));
    assert forall|i: int, j: int| 0 <= i < j < x.len() implies #[trigger] leq(x[i], x[j]) by {
        assert(order::earlier(times, s[i], s[j]));
    }
    assert forall|i: int, j: int| 0 <= i < j < y.len() implies #[trigger] leq(y[i], y[j]) by {
        assert(order::earlier(moved, t[i], t[j]));
    }
    lemma_sorted_unique(x, y, leq);
}

/// An order in time names every position once.
proof fn lemma_order_rearranges(times: Seq<Timestamp>, list: Seq<int>)
    requires
        order::orders_range(times, list, 0, times.len() as int),
    ensures
        rearranging::rearranges(list, times.len()),
{
    assert(list.no_duplicates()) by {
        assert forall|i: int, j: int| 0 <= i < list.len() && 0 <= j < list.len() && i != j implies
            list[i] != list[j] by {
            if i < j {
                assert(order::earlier(times, list[i], list[j]));
            } else {
                assert(order::earlier(times, list[j], list[i]));
            }
        }
    }
    rearranging::lemma_rearranges(list, times.len());
}

/// Whether elements at the same time are always in one session.
pub open spec fn keeps_ties(strategy: WindowingStrategy, times: Seq<Timestamp>) -> bool {
    match strategy {
        WindowingStrategy::Session { gap_secs } => gap_secs > 0 || (gap_secs == 0 && forall|k: int|
            0 <= k < times.len() ==> !(#[trigger] times[k]).nan()),
        _ => true,
    }
}

/// Places at the same time lie in the same session.
proof fn lemma_ties_share(
    plan: Seq<(Window, Seq<int>)>,
    gap: i64,
    times: Seq<Timestamp>,
    x: int,
    y: int,
    i: int,
    j: int,
)
    requires
        plan::lists_sessions(plan, times, gap as int),
        keeps_ties((WindowingStrategy::Session { gap_secs: gap }), times),
        0 <= i < plan.len(),
        0 <= j < plan.len(),
        sessions::offset(plan, i) <= x < sessions::offset(plan, i) + plan[i].1.len(),
        sessions::offset(plan, j) <= y < sessions::offset(plan, j) + plan[j].1.len(),
        x <= y < plan::all_positions(plan).len(),
        times[plan::all_positions(plan)[x]] == times[plan::all_positions(plan)[y]],
    ensures
        i == j,
{
    let all = plan::all_positions(plan);
    sessions::lemma_between_places(plan, i, j, x, y);
    if i < j {
        let z = sessions::offset(plan, i + 1);
        let p = sessions::breaks(times, gap as int, all);
        sessions::lemma_breaks(plan, times, gap as int);
        index::lemma_positions(all.len(), p);
        assert(index::positions(all.len(), p)[i + 1] == z);
        assert(p(z));
        let (a, b) = (all[z - 1], all[z]);
        assert(0 <= a < times.len() && 0 <= b < times.len());
        assert(times[a].rank() == times[b].rank()) by {
            assert(order::earlier(times, a, b));
            if x < z - 1 {
                assert(order::earlier(times, all[x], a));
            }
            if z < y {
                assert(order::earlier(times, b, all[y]));
            }
        }
        times::law_rank_is_total(times[a], times[b]);
        assert(times[a] == times[b]);
        assert(gap * timestamp::units_per_second() >= 0) by (nonlinear_arith)
            requires
                gap >= 0,
        ;
        assert(plan::continues(times, gap as int, a, b));
    }
}

/// Sessions of rearranged elements: the same windows, each with the positions
/// that name those listed.
proof fn lemma_sessions_rearranged(
    plan: Seq<(Window, Seq<int>)>,
    moved: Seq<(Window, Seq<int>)>,
    gap: i64,
    times: Seq<Timestamp>,
    order: Seq<int>,
)
    requires
        rearranging::rearranges(order, times.len()),
        keeps_ties((WindowingStrategy::Session { gap_secs: gap }), times),
        plan::lists_sessions(plan, times, gap as int),
        plan::lists_sessions(moved, rearranging::picked(times, order), gap as int),
    ensures
        same_windows(plan, moved, times.len(), order),
{
    let g = gap as int;
    let n = times.len();
    let later = rearranging::picked(times, order);
    let (s, t) = (plan::all_positions(plan), plan::all_positions(moved));
    lemma_sorted_times(times, order, s, t);
    let (sorted, also) = (rearranging::picked(times, s), rearranging::picked(later, t));
    assert(s.len() == n && t.len() == n);
    assert forall|x: int| 0 <= x < n implies times[#[trigger] s[x]] == later[t[x]] by {
        assert(sorted[x] == times[s[x]] && also[x] == later[t[x]]);
    }
    let (p, q) = (sessions::breaks(times, g, s), sessions::breaks(later, g, t));
    assert forall|x: int| 0 <= x < n implies #[trigger] p(x) == q(x) by {
        assert(times[s[x]] == later[t[x]]);
        if x > 0 {
            assert(times[s[x - 1]] == later[t[x - 1]]);
        }
    }
    index::lemma_positions_agree(n, p, q);
    sessions::lemma_breaks(plan, times, g);
    sessions::lemma_breaks(moved, later, g);
    let starts = index::positions(n, p);
    assert(plan.len() == starts.len() && moved.len() == starts.len());
    assert forall|i: int| 0 <= i < plan.len() implies sessions::offset(plan, i)
        == sessions::offset(moved, i) && (#[trigger] plan[i]).1.len() == moved[i].1.len() by {
        assert(starts[i] == sessions::offset(plan, i) && starts[i] == sessions::offset(moved, i));
        sessions::lemma_offsets(plan, i);
        sessions::lemma_offsets(moved, i);
        if i + 1 < plan.len() {
            assert(starts[i + 1] == sessions::offset(plan, i + 1) && starts[i + 1]
                == sessions::offset(moved, i + 1));
        }
    }
    assert forall|i: int| 0 <= i < plan.len() implies #[trigger] plan[i].0 == moved[i].0 by {
        let last = plan[i].1.len() - 1;
        assert(plan::spans(times, g, plan[i]) && plan::spans(later, g, moved[i]));
        let a = plan::lemma_flat_index(plan, i, 0);
        let b = plan::lemma_flat_index(moved, i, 0);
        let c = plan::lemma_flat_index(plan, i, last);
        let d = plan::lemma_flat_index(moved, i, last);
        assert(times[s[a]] == later[t[b]] && times[s[c]] == later[t[d]]);
    }
    assert forall|i: int, k: int| 0 <= i < plan.len() && 0 <= k < n implies (
    #[trigger] moved[i].1.contains(k) <==> plan[i].1.contains(order[k])) by {
        assert(t.contains(k));
        let y = choose|y: int| 0 <= y < t.len() && t[y] == k;
        assert(0 <= order[k] < n);
        assert(s.contains(order[k]));
        let x = choose|x: int| 0 <= x < s.len() && s[x] == order[k];
        assert(times[s[y]] == later[t[y]]);
        assert(times[s[x]] == later[k]);
        let u = sessions::lemma_flat_place(plan, x);
        let v = sessions::lemma_flat_place(plan, y);
        if x <= y {
            lemma_ties_share(plan, gap, times, x, y, u, v);
        } else {
            lemma_ties_share(plan, gap, times, y, x, v, u);
        }
        sessions::lemma_place_held(plan, times, i, x);
        sessions::lemma_place_held(moved, later, i, y);
        assert(plan[i].1.len() == moved[i].1.len());
        if i != u {
            if sessions::offset(plan, i) <= y < sessions::offset(plan, i) + plan[i].1.len() {
                sessions::lemma_between_places(plan, i, u, y, y);
                sessions::lemma_between_places(plan, u, i, y, y);
            }
            if sessions::offset(plan, i) <= x < sessions::offset(plan, i) + plan[i].1.len() {
                sessions::lemma_between_places(plan, i, u, x, x);
                sessions::lemma_between_places(plan, u, i, x, x);
            }
        }
    }
}

/// A window lists no position twice, and only positions of elements.
pub proof fn lemma_listed_once(
    plan: Seq<(Window, Seq<int>)>,
    strategy: WindowingStrategy,
    times: Seq<Timestamp>,
    i: int,
)
    requires
        plan::is_plan(plan, strategy, times),
        0 <= i < plan.len(),
    ensures
        plan[i].1.no_duplicates(),
        forall|k: int| #[trigger] plan[i].1.contains(k) ==> 0 <= k < times.len(),
{
    let list = plan[i].1;
    plan::lemma_plan_in_range(plan, strategy, times);
    assert forall|k: int| #[trigger] list.contains(k) implies 0 <= k < times.len() by {
        let j = choose|j: int| 0 <= j < list.len() && list[j] == k;
        assert(0 <= plan[i].1[j] < times.len());
    }
    assert forall|a: int, b: int| 0 <= a < b < list.len() implies #[trigger] list[a]
        != #[trigger] list[b] by {
        match strategy {
            WindowingStrategy::Session { gap_secs } => {
                let all = plan::all_positions(plan);
                let x = plan::lemma_flat_index(plan, i, a);
                let y = plan::lemma_flat_index(plan, i, b);
                assert(order::earlier(times, all[x], all[y]));
            },
            _ => {
                let p = plan::covering(strategy, times);
                index::lemma_positions(times.len(), |k: int| p(k, plan[i].0));
                assert(list == plan::members(times.len(), p, plan[i].0));
            },
        }
    }
}

/// The order of a collection does not matter: the same elements in another
/// order give the same windows in the same order, each with the same elements
/// up to their order.
///
/// Sessions with a negative gap, which put elements at the same time into
/// different sessions, are left out, and so are NaNs with a gap of 0.
pub proof fn law_order_does_not_matter<T>(
    elements: Seq<TimestampedValue<T>>,
    order: Seq<int>,
    strategy: WindowingStrategy,
    plan: Seq<(Window, Seq<int>)>,
    moved: Seq<(Window, Seq<int>)>,
)
    requires
        rearranging::rearranges(order, elements.len()),
        keeps_ties(strategy, collection::times(elements)),
        plan::is_plan(plan, strategy, collection::times(elements)),
        plan::is_plan(
            moved,
            strategy,
            collection::times(rearranging::picked(elements, order)),
        ),
    ensures
        moved.len() == plan.len(),
        forall|i: int|
            #![trigger plan[i]]
            #![trigger moved[i]]
            0 <= i < plan.len() ==> plan[i].0 == moved[i].0 && rearranging::picked(
                elements,
                plan[i].1,
            ).to_multiset() == rearranging::picked(
                rearranging::picked(elements, order),
                moved[i].1,
            ).to_multiset(),
{
    let times = collection::times(elements);
    let later = collection::times(rearranging::picked(elements, order));
    assert(later =~= rearranging::picked(times, order));
    match strategy {
        WindowingStrategy::Session { gap_secs } => {
            lemma_sessions_rearranged(plan, moved, gap_secs, times, order);
        },
        _ => {
            lemma_lists_rearranged(
                plan,
                moved,
                times.len(),
                plan::covering(strategy, times),
                plan::covering(strategy, later),
                order,
            );
        },
    }
    assert forall|i: int|
        #![trigger plan[i]]
        #![trigger moved[i]]
        0 <= i < plan.len() implies plan[i].0 == moved[i].0 && rearranging::picked(
        elements,
        plan[i].1,
    ).to_multiset() == rearranging::picked(
        rearranging::picked(elements, order),
        moved[i].1,
    ).to_multiset() by {
        lemma_listed_once(plan, strategy, times, i);
        lemma_listed_once(moved, strategy, later, i);
        rearranging::lemma_same_picked(elements, order, plan[i].1, moved[i].1);
    }
}

} // verus!
