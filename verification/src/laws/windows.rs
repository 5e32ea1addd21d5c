use vstd::arithmetic::div_mod::*;
use vstd::arithmetic::mul::*;
use vstd::arithmetic::power2::*;
use vstd::prelude::*;
use vstd::seq_lib::*;

use crate::index;
use crate::laws::plans;
use crate::laws::rearranging;
use crate::plan;
use crate::timestamp;
use crate::timestamp::Timestamp;
use crate::window::{Window, WindowingStrategy};

verus! {

/// How many windows of a plan hold the element at position `k`.
pub open spec fn windows_holding(plan: Seq<(Window, Seq<int>)>, k: int) -> nat {
    index::positions(plan.len(), |i: int| plan[i].1.contains(k)).len()
}

/// An element that is in exactly one window is held once.
pub proof fn lemma_held_once(plan: Seq<(Window, Seq<int>)>, k: int)
    requires
        exists|i: int| 0 <= i < plan.len() && (#[trigger] plan[i]).1.contains(k),
        forall|i: int, j: int|
            0 <= i < plan.len() && 0 <= j < plan.len() && (#[trigger] plan[i]).1.contains(k) && (
            #[trigger] plan[j]).1.contains(k) ==> i == j,
    ensures
        windows_holding(plan, k) == 1,
{
    let f = |i: int| plan[i].1.contains(k);
    let held = index::positions(plan.len(), f);
    index::lemma_positions(plan.len(), f);
    let i = choose|i: int| 0 <= i < plan.len() && (#[trigger] plan[i]).1.contains(k);
    assert(f(i));
    assert(held.contains(i));
    if held.len() > 1 {
        assert(f(held[0]) && f(held[1]));
        assert(held[0] < held[1]);
        assert(plan[held[0]].1.contains(k) && plan[held[1]].1.contains(k));
    }
}

/// A listed window lists exactly the positions that are related to it.
pub proof fn lemma_member(
    plan: Seq<(Window, Seq<int>)>,
    n: nat,
    p: spec_fn(int, Window) -> bool,
    i: int,
    k: int,
)
    requires
        plan::lists_by_window(plan, n, p),
        0 <= i < plan.len(),
    ensures
        plan[i].1.contains(k) <==> 0 <= k < n && p(k, plan[i].0),
{
    let w = plan[i].0;
    let f = |k: int| p(k, w);
    assert(plan[i].1 == plan::members(n, p, w));
    index::lemma_positions(n, f);
    if plan[i].1.contains(k) {
        let j = choose|j: int| 0 <= j < plan[i].1.len() && plan[i].1[j] == k;
        assert(f(plan[i].1[j]));
    }
    if 0 <= k < n && p(k, w) {
        assert(f(k));
    }
}

/// Windows with the same start are the same entry of a plan.
proof fn lemma_same_start(
    plan: Seq<(Window, Seq<int>)>,
    n: nat,
    p: spec_fn(int, Window) -> bool,
    i: int,
    j: int,
)
    requires
        plan::lists_by_window(plan, n, p),
        0 <= i < plan.len(),
        0 <= j < plan.len(),
        plan[i].0.start == plan[j].0.start,
    ensures
        i == j,
{
    if i < j {
        assert(plan[i].0.start < plan[j].0.start);
    } else if j < i {
        assert(plan[j].0.start < plan[i].0.start);
    }
}

/// Fixed windows put every element into exactly one window.
pub proof fn law_fixed_one_window(
    plan: Seq<(Window, Seq<int>)>,
    size: i64,
    times: Seq<Timestamp>,
    k: int,
)
    requires
        plan::assignable((WindowingStrategy::Fixed { size_secs: size }), times),
        plan::is_plan(plan, (WindowingStrategy::Fixed { size_secs: size }), times),
        0 <= k < times.len(),
    ensures
        exists|i: int| 0 <= i < plan.len() && (#[trigger] plan[i]).1.contains(k),
        forall|i: int, j: int|
            0 <= i < plan.len() && 0 <= j < plan.len() && (#[trigger] plan[i]).1.contains(k) && (
            #[trigger] plan[j]).1.contains(k) ==> i == j,
{
    let strategy = WindowingStrategy::Fixed { size_secs: size };
    let p = plan::covering(strategy, times);
    let secs = times[k].secs();
    let start = (secs / size as int) * size;
    assert(plan::fixed_fits(secs, size as int));
    lemma_fundamental_div_mod(secs, size as int);
    lemma_mul_is_commutative(size as int, secs / size as int);
    lemma_seconds_in_range(times[k]);
    let w = Window { start: start as i64, end: (start + size) as i64 };
    assert(p(k, w));
    assert(plan::has_window(plan, w));
    let i = choose|i: int| 0 <= i < plan.len() && (#[trigger] plan[i]).0 == w;
    lemma_member(plan, times.len(), p, i, k);
    assert forall|i: int, j: int|
        0 <= i < plan.len() && 0 <= j < plan.len() && (#[trigger] plan[i]).1.contains(k) && (
        #[trigger] plan[j]).1.contains(k) implies i == j by {
        lemma_member(plan, times.len(), p, i, k);
        lemma_member(plan, times.len(), p, j, k);
        lemma_same_start(plan, times.len(), p, i, j);
    }
}

/// Whole seconds lie within `i64`.
pub proof fn lemma_seconds_in_range(time: Timestamp)
    ensures
        i64::MIN <= time.secs() <= i64::MAX,
{
}

/// A window of the size that starts at a multiple of it is the fixed window of
/// the seconds that lie in it.
pub proof fn lemma_fixed_holds(secs: int, size: int, w: Window)
    requires
        size > 0,
        w.end == w.start + size,
        w.start as int % size == 0,
    ensures
        w.start <= secs < w.end <==> w.start == (secs / size) * size,
{
    let base = (secs / size) * size;
    lemma_fundamental_div_mod(secs, size);
    lemma_mul_is_commutative(size, secs / size);
    lemma_mod_bound(secs, size);
    lemma_mod_multiples_basic(secs / size, size);
    if w.start <= secs < w.end {
        if w.start < base {
            plan::lemma_multiples_apart(size, w.start as int, base);
        } else if base < w.start {
            plan::lemma_multiples_apart(size, base, w.start as int);
        }
    }
}

/// Fixed windows have constant size, start at multiples of it, do not overlap
/// and hold the seconds of their elements.
pub proof fn law_fixed_windows_tile(
    plan: Seq<(Window, Seq<int>)>,
    size: i64,
    times: Seq<Timestamp>,
)
    requires
        size > 0,
        plan::is_plan(plan, (WindowingStrategy::Fixed { size_secs: size }), times),
    ensures
        forall|i: int|
            0 <= i < plan.len() ==> (#[trigger] plan[i]).0.end == plan[i].0.start + size
                && plan[i].0.start as int % size as int == 0,
        forall|i: int, j: int|
            0 <= i < j < plan.len() ==> (#[trigger] plan[i]).0.end <= (#[trigger] plan[j]).0.start,
        forall|i: int, k: int|
            0 <= i < plan.len() && (#[trigger] plan[i].1.contains(k)) ==> plan[i].0.start
                <= times[k].secs() < plan[i].0.end,
{
    let strategy = WindowingStrategy::Fixed { size_secs: size };
    let p = plan::covering(strategy, times);
    assert forall|i: int| 0 <= i < plan.len() implies (#[trigger] plan[i]).0.end
        == plan[i].0.start + size && plan[i].0.start as int % size as int == 0 by {
        let k = plans::lemma_listed_windows(plan, times.len(), p, i);
        lemma_mod_multiples_basic(times[k].secs() / size as int, size as int);
    }
    assert forall|i: int, j: int| 0 <= i < j < plan.len() implies (#[trigger] plan[i]).0.end <= (
    #[trigger] plan[j]).0.start by {
        plan::lemma_multiples_apart(
            size as int,
            plan[i].0.start as int,
            plan[j].0.start as int,
        );
    }
    assert forall|i: int, k: int|
        0 <= i < plan.len() && (#[trigger] plan[i].1.contains(k)) implies plan[i].0.start
        <= times[k].secs() < plan[i].0.end by {
        lemma_member(plan, times.len(), p, i, k);
        lemma_fundamental_div_mod(times[k].secs(), size as int);
        lemma_mul_is_commutative(size as int, times[k].secs() / size as int);
    }
}

/// Moving a time by whole seconds moves its second by as many.
proof fn lemma_seconds_shift(time: Timestamp, moved: Timestamp, by: int)
    requires
        !time.nan(),
        !moved.nan(),
        i64::MIN <= time.floor() <= i64::MAX,
        i64::MIN <= moved.floor() <= i64::MAX,
        moved.units() == time.units() + by * timestamp::units_per_second(),
    ensures
        moved.secs() == time.secs() + by,
{
    let second = timestamp::units_per_second() as int;
    let units = time.units();
    lemma_pow2_pos(1074);
    lemma_fundamental_div_mod(units, second);
    lemma_mod_bound(units, second);
    assert(units + by * second == (time.floor() + by) * second + units % second)
        by (nonlinear_arith)
        requires
            units == second * time.floor() + units % second,
    ;
    lemma_fundamental_div_mod_converse(
        moved.units(),
        second,
        time.floor() + by,
        units % second,
    );
}

/// Moving a second by a multiple of the size moves its fixed window by as much.
proof fn lemma_fixed_shift(secs: int, size: int, count: int)
    requires
        size > 0,
    ensures
        ((secs + count * size) / size) * size == (secs / size) * size + count * size,
{
    lemma_fundamental_div_mod(secs, size);
    lemma_mod_bound(secs, size);
    let q = secs / size;
    let r = secs % size;
    assert(secs + count * size == (q + count) * size + r && (q + count) * size == q * size + count
        * size) by (nonlinear_arith)
        requires
            secs == size * q + r,
    ;
    lemma_fundamental_div_mod_converse(secs + count * size, size, q + count, r);
}

/// Moving all event times by a multiple of the size moves every fixed window by
/// as much and keeps its elements.
pub proof fn law_fixed_windows_shift(
    plan: Seq<(Window, Seq<int>)>,
    moved: Seq<(Window, Seq<int>)>,
    size: i64,
    count: int,
    times: Seq<Timestamp>,
    later: Seq<Timestamp>,
)
    requires
        size > 0,
        later.len() == times.len(),
        forall|k: int|
            #![trigger times[k]]
            #![trigger later[k]]
            0 <= k < times.len() ==> {
                &&& !times[k].nan()
                &&& !later[k].nan()
                &&& i64::MIN <= times[k].floor() <= i64::MAX
                &&& i64::MIN <= later[k].floor() <= i64::MAX
                &&& later[k].units() == times[k].units() + (count * size)
                    * timestamp::units_per_second()
            },
        plan::assignable((WindowingStrategy::Fixed { size_secs: size }), times),
        plan::assignable((WindowingStrategy::Fixed { size_secs: size }), later),
        plan::is_plan(plan, (WindowingStrategy::Fixed { size_secs: size }), times),
        plan::is_plan(moved, (WindowingStrategy::Fixed { size_secs: size }), later),
    ensures
        moved.len() == plan.len(),
        forall|i: int|
            #![trigger plan[i]]
            #![trigger moved[i]]
            0 <= i < plan.len() ==> {
                &&& moved[i].0.start == plan[i].0.start + count * size
                &&& moved[i].0.end == plan[i].0.end + count * size
                &&& moved[i].1 == plan[i].1
            },
{
    let strategy = WindowingStrategy::Fixed { size_secs: size };
    let n = times.len();
    let by = count * size;
    let (p, q) = (plan::covering(strategy, times), plan::covering(strategy, later));
    let shifted = plan.map_values(
        |entry: (Window, Seq<int>)|
            (
                Window { start: (entry.0.start + by) as i64, end: (entry.0.end + by) as i64 },
                entry.1,
            ),
    );
    assert forall|k: int| 0 <= k < n implies (#[trigger] later[k]).secs() == times[k].secs() + by
        && (later[k].secs() / size as int) * size == (times[k].secs() / size as int) * size
        + by by {
        lemma_seconds_shift(times[k], later[k], by);
        lemma_fixed_shift(times[k].secs(), size as int, count);
    }
    assert forall|i: int| 0 <= i < plan.len() implies (#[trigger] shifted[i]).0.start
        == plan[i].0.start + by && shifted[i].0.end == plan[i].0.end + by by {
        let k = plans::lemma_listed_windows(plan, n, p, i);
        assert(plan::fits_one(strategy, later[k].secs()));
        lemma_seconds_in_range(later[k]);
        lemma_start_not_after(later[k].secs(), size as int);
    }
    assert forall|i: int| 0 <= i < shifted.len() implies {
        &&& (#[trigger] shifted[i]).1 == plan::members(n, q, shifted[i].0)
        &&& shifted[i].1.len() > 0
    } by {
        let (v, w) = (plan[i].0, shifted[i].0);
        let (f, g) = (|k: int| p(k, v), |k: int| q(k, w));
        assert forall|k: int| 0 <= k < n implies #[trigger] f(k) == g(k) by {
            assert(later[k].secs() == times[k].secs() + by);
        }
        index::lemma_positions_agree(n, f, g);
        assert(plan[i].1 == plan::members(n, p, v));
    }
    assert forall|i: int, j: int| 0 <= i < j < shifted.len() implies (
    #[trigger] shifted[i]).0.start < (#[trigger] shifted[j]).0.start by {
        assert(plan[i].0.start < plan[j].0.start);
    }
    assert forall|k: int, w: Window| 0 <= k < n && #[trigger] q(k, w) implies plan::has_window(
        shifted,
        w,
    ) by {
        assert(later[k].secs() == times[k].secs() + by);
        let start = (times[k].secs() / size as int) * size;
        assert(plan::fits_one(strategy, times[k].secs()));
        lemma_seconds_in_range(times[k]);
        lemma_start_not_after(times[k].secs(), size as int);
        let v = Window { start: start as i64, end: (start + size) as i64 };
        assert(p(k, v));
        assert(plan::has_window(plan, v));
        let i = choose|i: int| 0 <= i < plan.len() && (#[trigger] plan[i]).0 == v;
        assert(shifted[i].0 == w);
    }
    plans::lemma_lists_by_window_unique(moved, shifted, n, q);
}

/// A fixed window does not start after the second that it holds.
proof fn lemma_start_not_after(secs: int, size: int)
    requires
        size > 0,
    ensures
        (secs / size) * size <= secs,
{
    lemma_fundamental_div_mod(secs, size);
    lemma_mul_is_commutative(size, secs / size);
    lemma_mod_bound(secs, size);
}

/// Sliding windows have constant size and hold the seconds of their elements.
/// Where the slide divides the size, they start and end at multiples of it.
pub proof fn law_sliding_windows_hold(
    plan: Seq<(Window, Seq<int>)>,
    size: i64,
    slide: i64,
    times: Seq<Timestamp>,
)
    requires
        slide > 0,
        plan::is_plan(
            plan,
            (WindowingStrategy::Sliding { size_secs: size, slide_secs: slide }),
            times,
        ),
    ensures
        forall|i: int|
            0 <= i < plan.len() ==> (#[trigger] plan[i]).0.end == plan[i].0.start + size,
        forall|i: int|
            0 <= i < plan.len() && size as int % slide as int == 0 ==> (
            #[trigger] plan[i]).0.start as int % slide as int == 0 && plan[i].0.end as int
                % slide as int == 0,
        forall|i: int, k: int|
            0 <= i < plan.len() && (#[trigger] plan[i].1.contains(k)) ==> plan[i].0.start
                <= times[k].secs() < plan[i].0.end,
{
    let strategy = WindowingStrategy::Sliding { size_secs: size, slide_secs: slide };
    let p = plan::covering(strategy, times);
    let (m, d) = (size as int, slide as int);
    assert forall|i: int| 0 <= i < plan.len() implies (#[trigger] plan[i]).0.end
        == plan[i].0.start + size by {
        let k = plans::lemma_listed_windows(plan, times.len(), p, i);
    }
    assert forall|i: int| 0 <= i < plan.len() && m % d == 0 implies (
    #[trigger] plan[i]).0.start as int % d == 0 && plan[i].0.end as int % d == 0 by {
        let k = plans::lemma_listed_windows(plan, times.len(), p, i);
        if m > 0 {
            plan::lemma_further_start(times[k].secs(), m, d);
        }
        lemma_sub_mod_noop(plan[i].0.end as int, m, d);
        lemma_small_mod(0, d as nat);
    }
    assert forall|i: int, k: int|
        0 <= i < plan.len() && (#[trigger] plan[i].1.contains(k)) implies plan[i].0.start
        <= times[k].secs() < plan[i].0.end by {
        lemma_member(plan, times.len(), p, i, k);
        if m > 0 {
            plan::lemma_further_start(times[k].secs(), m, d);
        }
    }
}

/// The starts of the sliding windows of second `secs`: those of the windows that
/// end at multiples of the slide and, where needed, that of the further one.
spec fn sliding_starts(secs: int, size: int, slide: int) -> Seq<int> {
    let count = plan::aligned_count(secs, size, slide);
    let aligned = Seq::new(
        count as nat,
        |j: int| plan::first_aligned_start(secs, size, slide) + j * slide,
    );
    if count < plan::sliding_count(size, slide) {
        aligned.push(plan::further_start(secs, size, slide))
    } else {
        aligned
    }
}

/// `sliding_starts` lists the starts of the sliding windows, each once.
proof fn lemma_sliding_starts(secs: int, size: int, slide: int)
    requires
        slide > 0,
        size > 0,
    ensures
        sliding_starts(secs, size, slide).len() == plan::sliding_count(size, slide),
        sliding_starts(secs, size, slide).no_duplicates(),
        forall|start: int| #[trigger]
            sliding_starts(secs, size, slide).contains(start) <==> plan::sliding_start(
                secs,
                size,
                slide,
                start,
            ),
{
    let first = plan::first_aligned_start(secs, size, slide);
    let count = plan::aligned_count(secs, size, slide);
    let wanted = plan::sliding_count(size, slide);
    let further = plan::further_start(secs, size, slide);
    let starts = sliding_starts(secs, size, slide);
    plan::lemma_aligned_starts(secs, size, slide, 0);
    plan::lemma_further_start(secs, size, slide);
    assert forall|j: int| 0 <= j < count implies plan::aligned_start(
        secs,
        size,
        slide,
        #[trigger] starts[j],
    ) by {
        plan::lemma_aligned_starts(secs, size, slide, j);
    }
    assert(starts.no_duplicates()) by {
        assert forall|a: int, b: int|
            0 <= a < starts.len() && 0 <= b < starts.len() && a != b implies starts[a]
            != starts[b] by {
            if a < count && b < count {
                assert(a * slide != b * slide) by (nonlinear_arith)
                    requires
                        a != b,
                        slide > 0,
                ;
            } else if a < count {
                assert(plan::aligned_start(secs, size, slide, starts[a]));
            } else {
                assert(plan::aligned_start(secs, size, slide, starts[b]));
            }
        }
    }
    assert forall|start: int| #[trigger] starts.contains(start) <==> plan::sliding_start(
        secs,
        size,
        slide,
        start,
    ) by {
        if starts.contains(start) {
            let j = choose|j: int| 0 <= j < starts.len() && starts[j] == start;
            if j < count {
                assert(plan::aligned_start(secs, size, slide, starts[j]));
            }
        }
        if plan::aligned_start(secs, size, slide, start) {
            let j = plan::lemma_aligned_index(secs, size, slide, start);
            assert(starts[j] == start);
        } else if plan::sliding_start(secs, size, slide, start) {
            assert(starts[count] == start);
        }
    }
}

/// Every element is in `size / slide` sliding windows, rounded up.
pub proof fn law_sliding_window_count(
    plan: Seq<(Window, Seq<int>)>,
    size: i64,
    slide: i64,
    times: Seq<Timestamp>,
    k: int,
)
    requires
        slide > 0,
        size > 0,
        plan::assignable(
            (WindowingStrategy::Sliding { size_secs: size, slide_secs: slide }),
            times,
        ),
        plan::is_plan(
            plan,
            (WindowingStrategy::Sliding { size_secs: size, slide_secs: slide }),
            times,
        ),
        0 <= k < times.len(),
    ensures
        windows_holding(plan, k) == (size + slide - 1) / slide as int,
{
    let strategy = WindowingStrategy::Sliding { size_secs: size, slide_secs: slide };
    let p = plan::covering(strategy, times);
    let secs = times[k].secs();
    let (m, d) = (size as int, slide as int);
    let f = |i: int| plan[i].1.contains(k);
    let held = index::positions(plan.len(), f);
    let s = held.map_values(|i: int| plan[i].0.start as int);
    let t = sliding_starts(secs, m, d);
    index::lemma_positions(plan.len(), f);
    lemma_sliding_starts(secs, m, d);
    lemma_seconds_in_range(times[k]);
    assert(plan::fits_one(strategy, secs));
    assert forall|x: int| #[trigger] s.contains(x) <==> t.contains(x) by {
        if s.contains(x) {
            let a = choose|a: int| 0 <= a < s.len() && s[a] == x;
            assert(f(held[a]));
            lemma_member(plan, times.len(), p, held[a], k);
            assert(strategy.covers(secs, plan[held[a]].0));
        }
        if t.contains(x) {
            assert(plan::sliding_start(secs, m, d, x));
            plan::lemma_further_start(secs, m, d);
            let w = Window { start: x as i64, end: (x + m) as i64 };
            assert(p(k, w));
            assert(plan::has_window(plan, w));
            let i = choose|i: int| 0 <= i < plan.len() && (#[trigger] plan[i]).0 == w;
            lemma_member(plan, times.len(), p, i, k);
            assert(f(i));
            assert(held.contains(i));
            let a = choose|a: int| 0 <= a < held.len() && held[a] == i;
            assert(s[a] == x);
        }
    }
    assert(s.no_duplicates()) by {
        assert forall|a: int, b: int| 0 <= a < s.len() && 0 <= b < s.len() && a != b implies s[a]
            != s[b] by {
            if a < b {
                assert(plan[held[a]].0.start < plan[held[b]].0.start);
            } else {
                assert(plan[held[b]].0.start < plan[held[a]].0.start);
            }
        }
    }
    rearranging::lemma_same_items(s, t);
    broadcast use group_to_multiset_ensures;

    assert(s.len() == s.to_multiset().len() && t.len() == t.to_multiset().len());
}

/// Sliding windows leave out no element: each is in at least one.
pub proof fn law_sliding_every_element(
    plan: Seq<(Window, Seq<int>)>,
    size: i64,
    slide: i64,
    times: Seq<Timestamp>,
    k: int,
)
    requires
        slide > 0,
        size > 0,
        plan::assignable(
            (WindowingStrategy::Sliding { size_secs: size, slide_secs: slide }),
            times,
        ),
        plan::is_plan(
            plan,
            (WindowingStrategy::Sliding { size_secs: size, slide_secs: slide }),
            times,
        ),
        0 <= k < times.len(),
    ensures
        windows_holding(plan, k) >= 1,
        exists|i: int| 0 <= i < plan.len() && (#[trigger] plan[i]).1.contains(k),
{
    let f = |i: int| plan[i].1.contains(k);
    let held = index::positions(plan.len(), f);
    law_sliding_window_count(plan, size, slide, times, k);
    plan::lemma_further_start(times[k].secs(), size as int, slide as int);
    index::lemma_positions(plan.len(), f);
    assert(f(held[0]));
    assert(plan[held[0]].1.contains(k));
}

/// Where enough windows that end at multiples of the slide hold an element, it
/// is in these and no others.
pub proof fn law_sliding_aligned_windows(
    plan: Seq<(Window, Seq<int>)>,
    size: i64,
    slide: i64,
    times: Seq<Timestamp>,
    k: int,
    i: int,
)
    requires
        slide > 0,
        plan::is_plan(
            plan,
            (WindowingStrategy::Sliding { size_secs: size, slide_secs: slide }),
            times,
        ),
        0 <= k < times.len(),
        0 <= i < plan.len(),
        plan::aligned_count(times[k].secs(), size as int, slide as int) >= plan::sliding_count(
            size as int,
            slide as int,
        ),
    ensures
        plan[i].1.contains(k) <==> plan[i].0.start <= times[k].secs() < plan[i].0.end
            && plan[i].0.end as int % slide as int == 0,
{
    let strategy = WindowingStrategy::Sliding { size_secs: size, slide_secs: slide };
    let p = plan::covering(strategy, times);
    lemma_member(plan, times.len(), p, i, k);
    let x = plans::lemma_listed_windows(plan, times.len(), p, i);
}

/// Sliding windows whose slide is their size are fixed windows.
pub proof fn law_sliding_by_size_is_fixed(
    plan: Seq<(Window, Seq<int>)>,
    size: i64,
    times: Seq<Timestamp>,
)
    requires
        size > 0,
    ensures
        plan::is_plan(
            plan,
            (WindowingStrategy::Sliding { size_secs: size, slide_secs: size }),
            times,
        ) <==> plan::is_plan(plan, (WindowingStrategy::Fixed { size_secs: size }), times),
{
    let sliding = WindowingStrategy::Sliding { size_secs: size, slide_secs: size };
    let fixed = WindowingStrategy::Fixed { size_secs: size };
    let n = times.len();
    let (p, q) = (plan::covering(sliding, times), plan::covering(fixed, times));
    assert forall|k: int, w: Window| #[trigger] p(k, w) == q(k, w) by {
        lemma_sliding_by_size(times[k].secs(), size as int, w);
    }
    assert forall|k: int, w: Window| #[trigger] q(k, w) == p(k, w) by {
        assert(p(k, w) == q(k, w));
    }
    if plan::is_plan(plan, sliding, times) {
        plan::lemma_plan_agrees(plan, n, p, n, q);
    }
    if plan::is_plan(plan, fixed, times) {
        plan::lemma_plan_agrees(plan, n, q, n, p);
    }
}

proof fn lemma_sliding_by_size(secs: int, size: int, w: Window)
    requires
        size > 0,
    ensures
        w.end == w.start + size && plan::sliding_start(secs, size, size, w.start as int)
            <==> w.start == (secs / size) * size && w.end == w.start + size,
{
    let base = (secs / size) * size;
    lemma_mod_self_0(size);
    plan::lemma_further_start(secs, size, size);
    lemma_fundamental_div_mod(secs, size);
    lemma_mul_is_commutative(size, secs / size);
    lemma_mod_bound(secs, size);
    lemma_mod_multiples_basic(secs / size + 1, size);
    assert((secs / size + 1) * size == base + size) by (nonlinear_arith)
        requires
            base == (secs / size) * size,
    ;
    if w.end == w.start + size && plan::aligned_start(secs, size, size, w.start as int) {
        if w.end < base + size {
            plan::lemma_multiples_apart(size, w.end as int, base + size);
        } else if base + size < w.end {
            plan::lemma_multiples_apart(size, base + size, w.end as int);
        }
    }
}

} // verus!
