use vstd::arithmetic::div_mod::*;
use vstd::arithmetic::mul::*;
use vstd::arithmetic::power2::*;
use vstd::prelude::*;

use crate::index;
use crate::laws::plans;
use crate::laws::times;
use crate::order;
use crate::plan;
use crate::timestamp;
use crate::timestamp::Timestamp;
use crate::window::{Window, WindowingStrategy};

verus! {

/// The positions of a plan are those of its windows.
pub proof fn lemma_flat_contains(plan: Seq<(Window, Seq<int>)>, k: int)
    ensures
        plan::all_positions(plan).contains(k) <==> exists|i: int|
            0 <= i < plan.len() && (#[trigger] plan[i]).1.contains(k),
    decreases plan.len(),
{
    let all = plan::all_positions(plan);
    if plan.len() == 0 {
        assert(all =~= Seq::<int>::empty()) by {
            assert(plan.map_values(|entry: (Window, Seq<int>)| entry.1) =~= Seq::empty());
        }
    } else {
        let rest = plan.drop_last();
        let last = plan.last().1;
        plan::lemma_all_positions_push(rest, plan.last());
        assert(rest.push(plan.last()) =~= plan);
        lemma_flat_contains(rest, k);
        if all.contains(k) {
            let a = choose|a: int| 0 <= a < all.len() && all[a] == k;
            if a < plan::all_positions(rest).len() {
                assert(plan::all_positions(rest)[a] == k);
                assert(plan::all_positions(rest).contains(k));
                let i = choose|i: int| 0 <= i < rest.len() && (#[trigger] rest[i]).1.contains(k);
                assert(plan[i].1.contains(k));
            } else {
                assert(last[a - plan::all_positions(rest).len()] == k);
                assert(plan[plan.len() - 1].1.contains(k));
            }
        }
        if exists|i: int| 0 <= i < plan.len() && (#[trigger] plan[i]).1.contains(k) {
            let i = choose|i: int| 0 <= i < plan.len() && (#[trigger] plan[i]).1.contains(k);
            let j = choose|j: int| 0 <= j < plan[i].1.len() && plan[i].1[j] == k;
            let at = plan::lemma_flat_index(plan, i, j);
            assert(all.contains(k));
        }
    }
}

/// Positions of an earlier window stand before those of a later one.
pub proof fn lemma_flat_offsets(plan: Seq<(Window, Seq<int>)>, i: int, j: int)
    requires
        0 <= i < j <= plan.len(),
    ensures
        plan::all_positions(plan.take(i)).len() + plan[i].1.len() <= plan::all_positions(
            plan.take(j),
        ).len(),
    decreases j,
{
    let before = plan.take(j - 1);
    plan::lemma_all_positions_push(before, plan[j - 1]);
    assert(before.push(plan[j - 1]) =~= plan.take(j));
    if i < j - 1 {
        lemma_flat_offsets(plan, i, j - 1);
    }
}

/// Sessions put every element into exactly one session.
pub proof fn law_session_one_window(
    plan: Seq<(Window, Seq<int>)>,
    gap: i64,
    times: Seq<Timestamp>,
    k: int,
)
    requires
        plan::is_plan(plan, (WindowingStrategy::Session { gap_secs: gap }), times),
        0 <= k < times.len(),
    ensures
        exists|i: int| 0 <= i < plan.len() && (#[trigger] plan[i]).1.contains(k),
        forall|i: int, j: int|
            0 <= i < plan.len() && 0 <= j < plan.len() && (#[trigger] plan[i]).1.contains(k) && (
            #[trigger] plan[j]).1.contains(k) ==> i == j,
{
    assert(plan::all_positions(plan).contains(k));
    lemma_flat_contains(plan, k);
    assert forall|i: int, j: int|
        0 <= i < plan.len() && 0 <= j < plan.len() && (#[trigger] plan[i]).1.contains(k) && (
        #[trigger] plan[j]).1.contains(k) implies i == j by {
        if i < j {
            lemma_in_two_sessions(plan, times, i, j, k);
        } else if j < i {
            lemma_in_two_sessions(plan, times, j, i, k);
        }
    }
}

/// No position is in two sessions.
proof fn lemma_in_two_sessions(
    plan: Seq<(Window, Seq<int>)>,
    times: Seq<Timestamp>,
    i: int,
    j: int,
    k: int,
)
    requires
        order::in_time_order(times, plan::all_positions(plan)),
        0 <= i < j < plan.len(),
        plan[i].1.contains(k),
    ensures
        !plan[j].1.contains(k),
{
    if plan[j].1.contains(k) {
        let a = choose|a: int| 0 <= a < plan[i].1.len() && plan[i].1[a] == k;
        let b = choose|b: int| 0 <= b < plan[j].1.len() && plan[j].1[b] == k;
        let x = plan::lemma_flat_index(plan, i, a);
        let y = plan::lemma_flat_index(plan, j, b);
        lemma_flat_offsets(plan, i, j);
        assert(order::earlier(times, plan::all_positions(plan)[x], plan::all_positions(plan)[y]));
    }
}

/// Where no event time is a NaN, a later place among all positions is at a
/// later or the same time, and at a later or the same second.
proof fn lemma_times_ordered(times: Seq<Timestamp>, list: Seq<int>, a: int, b: int)
    requires
        order::orders_range(times, list, 0, times.len() as int),
        forall|k: int| 0 <= k < times.len() ==> !(#[trigger] times[k]).nan(),
        0 <= a <= b < list.len(),
    ensures
        times[list[a]].units() <= times[list[b]].units(),
        times[list[a]].secs() <= times[list[b]].secs(),
{
    if a < b {
        assert(order::earlier(times, list[a], list[b]));
        let (x, y) = (times[list[a]], times[list[b]]);
        assert(0 <= list[a] < times.len() && 0 <= list[b] < times.len());
        times::law_rank_follows_value(x, y);
        times::law_seconds_follow_value(x, y);
    }
}

/// A value more than `gap` seconds after another lies in a second that is at
/// least `gap` later.
proof fn lemma_seconds_apart(earlier: Timestamp, later: Timestamp, gap: int)
    requires
        !earlier.nan(),
        !later.nan(),
        i64::MIN <= earlier.floor(),
        earlier.secs() + gap <= i64::MAX,
        !later.within(earlier, gap),
    ensures
        earlier.secs() + gap <= later.secs(),
{
    let second = timestamp::units_per_second() as int;
    let (a, b) = (earlier.units(), later.units());
    lemma_pow2_pos(1074);
    lemma_fundamental_div_mod(a, second);
    lemma_mod_bound(a, second);
    let moved = a + gap * second;
    assert(moved == (earlier.floor() + gap) * second + a % second) by (nonlinear_arith)
        requires
            a == second * earlier.floor() + a % second,
            moved == a + gap * second,
    ;
    lemma_fundamental_div_mod_converse(moved, second, earlier.floor() + gap, a % second);
    lemma_div_is_ordered(moved, b, second);
}

/// Where no event time is a NaN or before the range of `i64` and the gap is
/// positive, sessions come in time order without overlap, each holds the
/// seconds of its elements, and elements of different sessions are more than
/// the gap apart.
pub proof fn law_sessions_are_apart(
    plan: Seq<(Window, Seq<int>)>,
    gap: i64,
    times: Seq<Timestamp>,
)
    requires
        gap > 0,
        forall|k: int| 0 <= k < times.len() ==> !(#[trigger] times[k]).nan(),
        forall|k: int| 0 <= k < times.len() ==> i64::MIN <= (#[trigger] times[k]).floor(),
        plan::is_plan(plan, (WindowingStrategy::Session { gap_secs: gap }), times),
    ensures
        forall|i: int, k: int|
            0 <= i < plan.len() && (#[trigger] plan[i].1.contains(k)) ==> plan[i].0.start
                <= times[k].secs() < plan[i].0.end,
        forall|i: int, j: int|
            0 <= i < j < plan.len() ==> (#[trigger] plan[i]).0.end <= (#[trigger] plan[j]).0.start,
        forall|i: int, j: int, k: int, m: int|
            0 <= i < j < plan.len() && #[trigger] plan[i].1.contains(k)
                && #[trigger] plan[j].1.contains(m) ==> times[m].units() - times[k].units() > gap
                * timestamp::units_per_second(),
{
    let all = plan::all_positions(plan);
    assert forall|i: int, k: int|
        0 <= i < plan.len() && (#[trigger] plan[i].1.contains(k)) implies plan[i].0.start
        <= times[k].secs() < plan[i].0.end by {
        let list = plan[i].1;
        assert(plan::spans(times, gap as int, plan[i]));
        let j = choose|j: int| 0 <= j < list.len() && list[j] == k;
        let x = plan::lemma_flat_index(plan, i, 0);
        let y = plan::lemma_flat_index(plan, i, j);
        let z = plan::lemma_flat_index(plan, i, list.len() - 1);
        lemma_times_ordered(times, all, x, y);
        lemma_times_ordered(times, all, y, z);
    }
    assert forall|i: int, j: int| 0 <= i < j < plan.len() implies (#[trigger] plan[i]).0.end <= (
    #[trigger] plan[j]).0.start by {
        lemma_session_break(plan, gap as int, times, i, j);
        assert(plan::spans(times, gap as int, plan[i]));
        assert(plan::spans(times, gap as int, plan[j]));
        let a = plan[i].1.last();
        let b = plan[j].1.first();
        assert(0 <= a < times.len() && 0 <= b < times.len()) by {
            plan::lemma_plan_in_range(
                plan,
                (WindowingStrategy::Session { gap_secs: gap }),
                times,
            );
            assert(plan[i].1[plan[i].1.len() - 1] == a && plan[j].1[0] == b);
        }
        lemma_seconds_apart(times[a], times[b], gap as int);
    }
    assert forall|i: int, j: int, k: int, m: int|
        0 <= i < j < plan.len() && #[trigger] plan[i].1.contains(k)
            && #[trigger] plan[j].1.contains(m) implies times[m].units() - times[k].units() > gap
        * timestamp::units_per_second() by {
        lemma_session_break(plan, gap as int, times, i, j);
        assert(plan::spans(times, gap as int, plan[i]));
        assert(plan::spans(times, gap as int, plan[j]));
        let a = choose|a: int| 0 <= a < plan[i].1.len() && plan[i].1[a] == k;
        let b = choose|b: int| 0 <= b < plan[j].1.len() && plan[j].1[b] == m;
        let x = plan::lemma_flat_index(plan, i, a);
        let y = plan::lemma_flat_index(plan, i, plan[i].1.len() - 1);
        let u = plan::lemma_flat_index(plan, j, 0);
        let v = plan::lemma_flat_index(plan, j, b);
        lemma_times_ordered(times, all, x, y);
        lemma_times_ordered(times, all, u, v);
    }
}

/// The first element of a later session is more than the gap after the last
/// one of an earlier session.
proof fn lemma_session_break(
    plan: Seq<(Window, Seq<int>)>,
    gap: int,
    times: Seq<Timestamp>,
    i: int,
    j: int,
)
    requires
        forall|k: int| 0 <= k < times.len() ==> !(#[trigger] times[k]).nan(),
        plan::lists_sessions(plan, times, gap),
        0 <= i < j < plan.len(),
    ensures
        times[plan[j].1.first()].units() - times[plan[i].1.last()].units() > gap
            * timestamp::units_per_second(),
{
    let all = plan::all_positions(plan);
    let next = i + 1;
    assert(plan::spans(times, gap, plan[i]));
    assert(plan::spans(times, gap, plan[next]));
    assert(plan::spans(times, gap, plan[j]));
    assert(!plan::continues(times, gap, plan[i].1.last(), plan[next].1.first()));
    let w = plan::lemma_flat_index(plan, i, plan[i].1.len() - 1);
    let x = plan::lemma_flat_index(plan, next, 0);
    assert(0 <= all[w] < times.len() && 0 <= all[x] < times.len());
    if next < j {
        let y = plan::lemma_flat_index(plan, j, 0);
        lemma_flat_offsets(plan, next, j);
        lemma_times_ordered(times, all, x, y);
    }
}

/// Where window `i` of a plan begins among all positions.
pub open spec fn offset(plan: Seq<(Window, Seq<int>)>, i: int) -> int {
    plan::all_positions(plan.take(i)).len() as int
}

/// Whether a new session begins at place `x` of a list in time order.
pub open spec fn breaks(times: Seq<Timestamp>, gap: int, list: Seq<int>) -> spec_fn(int) -> bool {
    |x: int| x == 0 || !plan::continues(times, gap, list[x - 1], list[x])
}

/// Every place among all positions belongs to a window.
pub proof fn lemma_flat_place(plan: Seq<(Window, Seq<int>)>, x: int) -> (i: int)
    requires
        0 <= x < plan::all_positions(plan).len(),
    ensures
        0 <= i < plan.len(),
        offset(plan, i) <= x < offset(plan, i) + plan[i].1.len(),
    decreases plan.len(),
{
    if plan.len() == 0 {
        assert(plan.map_values(|entry: (Window, Seq<int>)| entry.1) =~= Seq::empty());
        0
    } else {
        let rest = plan.drop_last();
        plan::lemma_all_positions_push(rest, plan.last());
        assert(rest.push(plan.last()) =~= plan);
        assert(plan.take(plan.len() - 1) =~= rest);
        if x < plan::all_positions(rest).len() {
            let i = lemma_flat_place(rest, x);
            assert(rest.take(i) =~= plan.take(i));
            i
        } else {
            plan.len() - 1
        }
    }
}

/// A window ends where the next begins, and the last one where all positions
/// end.
pub proof fn lemma_offsets(plan: Seq<(Window, Seq<int>)>, i: int)
    requires
        0 <= i < plan.len(),
    ensures
        offset(plan, 0) == 0,
        offset(plan, i + 1) == offset(plan, i) + plan[i].1.len(),
        offset(plan, plan.len() as int) == plan::all_positions(plan).len(),
{
    assert(plan.take(0).map_values(|entry: (Window, Seq<int>)| entry.1) =~= Seq::empty());
    plan::lemma_all_positions_push(plan.take(i), plan[i]);
    assert(plan.take(i).push(plan[i]) =~= plan.take(i + 1));
    assert(plan.take(plan.len() as int) =~= plan);
}

/// Sessions begin exactly at the breaks between elements.
pub proof fn lemma_breaks(plan: Seq<(Window, Seq<int>)>, times: Seq<Timestamp>, gap: int)
    requires
        plan::are_sessions(plan, times, gap),
    ensures
        index::positions(
            plan::all_positions(plan).len(),
            breaks(times, gap, plan::all_positions(plan)),
        ) == Seq::new(plan.len(), |i: int| offset(plan, i)),
    decreases plan.len(),
{
    let all = plan::all_positions(plan);
    let p = breaks(times, gap, all);
    if plan.len() == 0 {
        assert(plan.map_values(|entry: (Window, Seq<int>)| entry.1) =~= Seq::empty());
        assert(index::positions(all.len(), p) =~= Seq::new(plan.len(), |i: int| offset(plan, i)));
    } else {
        let rest = plan.drop_last();
        let last = plan.last();
        let before = plan::all_positions(rest);
        let cut = before.len();
        plan::lemma_all_positions_push(rest, last);
        assert(rest.push(last) =~= plan);
        assert(plan[plan.len() - 1] == last);
        assert forall|i: int| 0 <= i < rest.len() implies plan::spans(
            times,
            gap,
            #[trigger] rest[i],
        ) && plan::is_run(times, gap, rest[i].1) by {
            assert(rest[i] == plan[i]);
        }
        assert forall|i: int, j: int|
            0 <= i && j == i + 1 && j < rest.len() implies !plan::continues(
            times,
            gap,
            (#[trigger] rest[i]).1.last(),
            (#[trigger] rest[j]).1.first(),
        ) by {
            assert(rest[i] == plan[i] && rest[j] == plan[j]);
        }
        lemma_breaks(rest, times, gap);
        let q = breaks(times, gap, before);
        assert forall|x: int| 0 <= x < cut implies #[trigger] q(x) == p(x) by {}
        index::lemma_positions_agree(cut, q, p);
        assert(plan::spans(times, gap, last));
        assert(p(cut as int)) by {
            if cut > 0 {
                let i = lemma_flat_place(rest, cut - 1);
                lemma_offsets(rest, rest.len() - 1);
                let end = plan[plan.len() - 2];
                assert(end == rest[rest.len() - 1]);
                assert(plan::spans(times, gap, end));
                let at = plan::lemma_flat_index(rest, rest.len() - 1, end.1.len() - 1);
                assert(before[cut - 1] == end.1.last());
            }
        }
        assert forall|x: int| cut < x < all.len() implies !#[trigger] p(x) by {
            let (a, b) = (x - 1 - cut, x - cut);
            assert(all[x - 1] == last.1[a] && all[x] == last.1[b]);
            assert(plan::continues(times, gap, last.1[a], last.1[b]));
        }
        plan::lemma_positions_extend(cut + 1, p, all.len(), p);
        assert(index::positions(cut + 1, p) == index::positions(cut, p).push(cut as int));
        assert forall|i: int| 0 <= i < rest.len() implies #[trigger] offset(plan, i) == offset(
            rest,
            i,
        ) by {
            assert(plan.take(i) =~= rest.take(i));
        }
        assert(plan.take(plan.len() - 1) =~= rest);
        assert(index::positions(all.len(), p) =~= Seq::new(plan.len(), |i: int| offset(plan, i)));
    }
}

/// No session breaks after its first element.
proof fn lemma_no_break_inside(
    plan: Seq<(Window, Seq<int>)>,
    times: Seq<Timestamp>,
    gap: int,
    i: int,
    x: int,
)
    requires
        plan::are_sessions(plan, times, gap),
        0 <= i < plan.len(),
        offset(plan, i) < x < offset(plan, i) + plan[i].1.len(),
    ensures
        !breaks(times, gap, plan::all_positions(plan))(x),
{
    let b = x - offset(plan, i);
    let a = b - 1;
    let u = plan::lemma_flat_index(plan, i, a);
    let v = plan::lemma_flat_index(plan, i, b);
    assert(plan::is_run(times, gap, plan[i].1));
    assert(plan::continues(times, gap, plan[i].1[a], plan[i].1[b]));
}

/// A session holds the element at a place among all positions exactly if the
/// place lies within it.
pub proof fn lemma_place_held(
    plan: Seq<(Window, Seq<int>)>,
    times: Seq<Timestamp>,
    i: int,
    x: int,
)
    requires
        order::in_time_order(times, plan::all_positions(plan)),
        0 <= i < plan.len(),
        0 <= x < plan::all_positions(plan).len(),
    ensures
        plan[i].1.contains(plan::all_positions(plan)[x]) <==> offset(plan, i) <= x < offset(plan, i)
            + plan[i].1.len(),
{
    let all = plan::all_positions(plan);
    if plan[i].1.contains(all[x]) {
        let j = choose|j: int| 0 <= j < plan[i].1.len() && plan[i].1[j] == all[x];
        let at = plan::lemma_flat_index(plan, i, j);
        if at < x {
            assert(order::earlier(times, all[at], all[x]));
        } else if x < at {
            assert(order::earlier(times, all[x], all[at]));
        }
    }
    if offset(plan, i) <= x < offset(plan, i) + plan[i].1.len() {
        let j = x - offset(plan, i);
        let at = plan::lemma_flat_index(plan, i, j);
        assert(plan[i].1[j] == all[x]);
    }
}

/// Places of different windows lie on either side of where a window begins.
pub proof fn lemma_between_places(plan: Seq<(Window, Seq<int>)>, i: int, j: int, x: int, y: int)
    requires
        0 <= i < plan.len(),
        0 <= j < plan.len(),
        offset(plan, i) <= x < offset(plan, i) + plan[i].1.len(),
        offset(plan, j) <= y < offset(plan, j) + plan[j].1.len(),
        x <= y,
    ensures
        i <= j,
        i < j ==> x < offset(plan, i + 1) <= y,
{
    lemma_offsets(plan, i);
    if j < i {
        lemma_flat_offsets(plan, j, i);
    }
    if i + 1 < j {
        lemma_flat_offsets(plan, i + 1, j);
    }
}

/// A larger gap only merges sessions: it gives no more of them, and elements
/// that shared a session still do.
pub proof fn law_larger_gap_merges(
    plan: Seq<(Window, Seq<int>)>,
    gap: i64,
    merged: Seq<(Window, Seq<int>)>,
    larger: i64,
    times: Seq<Timestamp>,
)
    requires
        gap <= larger,
        plan::is_plan(plan, (WindowingStrategy::Session { gap_secs: gap }), times),
        plan::is_plan(merged, (WindowingStrategy::Session { gap_secs: larger }), times),
    ensures
        merged.len() <= plan.len(),
        forall|i: int, k: int, m: int|
            0 <= i < plan.len() && #[trigger] plan[i].1.contains(k)
                && #[trigger] plan[i].1.contains(m) ==> exists|j: int|
                0 <= j < merged.len() && (#[trigger] merged[j]).1.contains(k)
                    && merged[j].1.contains(m),
{
    let all = plan::all_positions(plan);
    let (g, h) = (gap as int, larger as int);
    plans::lemma_time_order_unique(times, all, plan::all_positions(merged));
    let (p, q) = (breaks(times, g, all), breaks(times, h, all));
    assert forall|x: int| 0 <= x < all.len() && #[trigger] q(x) implies p(x) by {
        if x > 0 && plan::continues(times, g, all[x - 1], all[x]) {
            lemma_larger_gap(times, g, h, all[x - 1], all[x]);
        }
    }
    lemma_breaks(plan, times, g);
    lemma_breaks(merged, times, h);
    index::lemma_positions_fewer(all.len(), p, q);
    assert forall|i: int, k: int, m: int|
        0 <= i < plan.len() && #[trigger] plan[i].1.contains(k)
            && #[trigger] plan[i].1.contains(m) implies exists|j: int|
        0 <= j < merged.len() && (#[trigger] merged[j]).1.contains(k) && merged[j].1.contains(
            m,
        ) by {
        let a = choose|a: int| 0 <= a < plan[i].1.len() && plan[i].1[a] == k;
        let b = choose|b: int| 0 <= b < plan[i].1.len() && plan[i].1[b] == m;
        let x = plan::lemma_flat_index(plan, i, a);
        let y = plan::lemma_flat_index(plan, i, b);
        let u = lemma_flat_place(merged, x);
        let v = lemma_flat_place(merged, y);
        if x <= y {
            lemma_places_merge(plan, g, merged, h, times, i, x, y, u, v);
        } else {
            lemma_places_merge(plan, g, merged, h, times, i, y, x, v, u);
        }
        lemma_place_held(merged, times, u, x);
        lemma_place_held(merged, times, v, y);
        assert(merged[u].1.contains(k) && merged[u].1.contains(m));
    }
}

/// What continues a session continues it with a larger gap.
proof fn lemma_larger_gap(times: Seq<Timestamp>, gap: int, larger: int, i: int, j: int)
    requires
        gap <= larger,
        plan::continues(times, gap, i, j),
    ensures
        plan::continues(times, larger, i, j),
{
    lemma_pow2_pos(1074);
    lemma_mul_inequality(gap, larger, timestamp::units_per_second() as int);
}

/// Two places of one session lie in one session under a larger gap.
proof fn lemma_places_merge(
    plan: Seq<(Window, Seq<int>)>,
    gap: int,
    merged: Seq<(Window, Seq<int>)>,
    larger: int,
    times: Seq<Timestamp>,
    i: int,
    x: int,
    y: int,
    u: int,
    v: int,
)
    requires
        gap <= larger,
        plan::are_sessions(plan, times, gap),
        plan::are_sessions(merged, times, larger),
        plan::all_positions(plan) == plan::all_positions(merged),
        0 <= i < plan.len(),
        offset(plan, i) <= x <= y < offset(plan, i) + plan[i].1.len(),
        0 <= u < merged.len(),
        0 <= v < merged.len(),
        offset(merged, u) <= x < offset(merged, u) + merged[u].1.len(),
        offset(merged, v) <= y < offset(merged, v) + merged[v].1.len(),
    ensures
        u == v,
{
    let all = plan::all_positions(plan);
    lemma_between_places(merged, u, v, x, y);
    if u < v {
        let z = offset(merged, u + 1);
        lemma_breaks(merged, times, larger);
        let q = breaks(times, larger, all);
        let starts = index::positions(all.len(), q);
        index::lemma_positions(all.len(), q);
        assert(starts[u + 1] == z);
        assert(q(z));
        lemma_no_break_inside(plan, times, gap, i, z);
        lemma_larger_gap(times, gap, larger, all[z - 1], all[z]);
    }
}

} // verus!
