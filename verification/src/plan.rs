use vstd::arithmetic::div_mod::*;
use vstd::arithmetic::mul::*;
use vstd::prelude::*;

use crate::collection;
use crate::collection::TimestampedValue;
use crate::index;
use crate::order;
use crate::timestamp::Timestamp;
use crate::window::{Window, WindowingStrategy};

verus! {

impl WindowingStrategy {
    /// Whether a fixed or sliding strategy puts an element at second `secs`
    /// into `window`.
    ///
    /// Fixed windows start at the multiple of the size at or below `secs`.
    /// Sliding windows are those of the given size with a `sliding_start`.
    pub open spec fn covers(self, secs: int, window: Window) -> bool {
        match self {
            WindowingStrategy::Fixed { size_secs } => {
                &&& window.start == (secs / size_secs as int) * size_secs
                &&& window.end == window.start + size_secs
            },
            WindowingStrategy::Sliding { size_secs, slide_secs } => {
                &&& window.end == window.start + size_secs
                &&& sliding_start(secs, size_secs as int, slide_secs as int, window.start as int)
            },
            WindowingStrategy::Session { .. } => false,
        }
    }
}

/// The windows of a fixed or sliding strategy, as a relation between
/// positions in `times` and windows.
pub open spec fn covering(strategy: WindowingStrategy, times: Seq<Timestamp>) -> spec_fn(
    int,
    Window,
) -> bool {
    |k: int, w: Window| strategy.covers(times[k].secs(), w)
}

/// Whether second `secs` has a fixed window and that lies within `i64`.
pub open spec fn fixed_fits(secs: int, size: int) -> bool {
    let start = (secs / size) * size;
    &&& size != 0
    &&& i64::MIN <= start
    &&& i64::MIN <= start + size <= i64::MAX
}

/// In how many sliding windows each element is: `size / slide`, rounded up.
pub open spec fn sliding_count(size: int, slide: int) -> int {
    (size + slide - 1) / slide
}

/// Whether a window of the given size that starts at `start` holds `secs` and
/// ends at a multiple of the slide.
pub open spec fn aligned_start(secs: int, size: int, slide: int, start: int) -> bool {
    start <= secs < start + size && (start + size) % slide == 0
}

/// How many windows of the given size hold `secs` and end at a multiple of the
/// slide: `sliding_count` of them, or one fewer.
pub open spec fn aligned_count(secs: int, size: int, slide: int) -> int {
    (secs % slide + size) / slide
}

/// Where the window starts that holds `secs` when windows of the given size are
/// laid end to end from the multiple of the slide at or below `secs`.
pub open spec fn further_start(secs: int, size: int, slide: int) -> int {
    (secs / slide) * slide + (secs % slide / size) * size
}

/// Whether a sliding window of second `secs` starts at `start`.
///
/// Sliding windows end at multiples of the slide. Where too few of these hold
/// `secs`, a further window does, so that every element is in `sliding_count`
/// of them.
pub open spec fn sliding_start(secs: int, size: int, slide: int, start: int) -> bool {
    ||| aligned_start(secs, size, slide, start)
    ||| size > 0 && aligned_count(secs, size, slide) < sliding_count(size, slide) && start
        == further_start(secs, size, slide)
}

/// Whether the slide is not 0 and the sliding windows of second `secs` lie
/// within `i64`. Windows of a positive size need a positive slide; of any other
/// size there are none.
pub open spec fn sliding_fits(secs: int, size: int, slide: int) -> bool {
    &&& slide != 0
    &&& size > 0 ==> slide > 0 && forall|start: int| #[trigger]
        sliding_start(secs, size, slide, start) ==> i64::MIN <= start && start + size <= i64::MAX
}

/// Whether every bound that a strategy needs for an element at second `secs`
/// lies within `i64`.
pub open spec fn fits_one(strategy: WindowingStrategy, secs: int) -> bool {
    match strategy {
        WindowingStrategy::Fixed { size_secs } => fixed_fits(secs, size_secs as int),
        WindowingStrategy::Sliding { size_secs, slide_secs } => sliding_fits(
            secs,
            size_secs as int,
            slide_secs as int,
        ),
        WindowingStrategy::Session { gap_secs } => i64::MIN <= secs + gap_secs <= i64::MAX,
    }
}

/// Whether a strategy can divide elements with the given event times: for each
/// of them its size or slide is not 0, sliding windows of a positive size have a
/// positive slide, and every bound that it needs lies within `i64`.
pub open spec fn assignable(strategy: WindowingStrategy, times: Seq<Timestamp>) -> bool {
    forall|k: int| 0 <= k < times.len() ==> fits_one(strategy, (#[trigger] times[k]).secs())
}

/// Whether `plan` lists, for each window that `p` relates to some position
/// below `n`, the positions it is related to: windows ordered by start,
/// positions in increasing order.
pub open spec fn lists_by_window(
    plan: Seq<(Window, Seq<int>)>,
    n: nat,
    p: spec_fn(int, Window) -> bool,
) -> bool {
    &&& forall|i: int, j: int|
        0 <= i < j < plan.len() ==> (#[trigger] plan[i]).0.start < (#[trigger] plan[j]).0.start
    &&& forall|i: int|
        0 <= i < plan.len() ==> {
            &&& (#[trigger] plan[i]).1 == members(n, p, plan[i].0)
            &&& plan[i].1.len() > 0
        }
    &&& forall|k: int, w: Window| 0 <= k < n && #[trigger] p(k, w) ==> has_window(plan, w)
}

/// The positions below `n` that `p` relates to `window`.
pub open spec fn members(n: nat, p: spec_fn(int, Window) -> bool, window: Window) -> Seq<int> {
    index::positions(n, |k: int| p(k, window))
}

pub open spec fn has_window(plan: Seq<(Window, Seq<int>)>, window: Window) -> bool {
    exists|i: int| 0 <= i < plan.len() && (#[trigger] plan[i]).0 == window
}

/// The positions of a plan, window after window.
pub open spec fn all_positions(plan: Seq<(Window, Seq<int>)>) -> Seq<int> {
    plan.map_values(|entry: (Window, Seq<int>)| entry.1).flatten()
}

/// Whether an element at position `j` belongs to the same session as the
/// element at position `i` just before it: it is at most `gap` seconds later.
///
/// Next to a NaN, which counts as second 0, seconds are compared instead, and
/// it has to be less than `gap` later.
pub open spec fn continues(times: Seq<Timestamp>, gap: int, i: int, j: int) -> bool {
    if times[i].nan() || times[j].nan() {
        times[j].secs() < times[i].secs() + gap
    } else {
        times[j].within(times[i], gap)
    }
}

/// Whether each position of a list continues the session of the one before.
pub open spec fn is_run(times: Seq<Timestamp>, gap: int, list: Seq<int>) -> bool {
    forall|a: int, b: int|
        0 <= a && b == a + 1 && b < list.len() ==> continues(
            times,
            gap,
            #[trigger] list[a],
            #[trigger] list[b],
        )
}

/// Whether a window reaches from the first of the listed elements to `gap`
/// seconds after the last.
pub open spec fn spans(times: Seq<Timestamp>, gap: int, entry: (Window, Seq<int>)) -> bool {
    &&& entry.1.len() > 0
    &&& entry.0.start == times[entry.1.first()].secs()
    &&& entry.0.end == times[entry.1.last()].secs() + gap
}

/// Whether the lists of `plan` are sessions: runs with the windows that they
/// span, each ending where the next element does not continue it.
pub open spec fn are_sessions(
    plan: Seq<(Window, Seq<int>)>,
    times: Seq<Timestamp>,
    gap: int,
) -> bool {
    &&& forall|i: int|
        0 <= i < plan.len() ==> spans(times, gap, #[trigger] plan[i]) && is_run(
            times,
            gap,
            plan[i].1,
        )
    &&& forall|i: int, j: int|
        0 <= i && j == i + 1 && j < plan.len() ==> !continues(
            times,
            gap,
            (#[trigger] plan[i]).1.last(),
            (#[trigger] plan[j]).1.first(),
        )
}

/// Whether `plan` divides all positions, taken in time order, into sessions.
pub open spec fn lists_sessions(
    plan: Seq<(Window, Seq<int>)>,
    times: Seq<Timestamp>,
    gap: int,
) -> bool {
    &&& order::orders_range(times, all_positions(plan), 0, times.len() as int)
    &&& are_sessions(plan, times, gap)
}

/// Whether `plan` is the division of elements with the given event times into
/// the windows of a strategy: for each window, in order, the positions of the
/// elements that it holds.
pub open spec fn is_plan(
    plan: Seq<(Window, Seq<int>)>,
    strategy: WindowingStrategy,
    times: Seq<Timestamp>,
) -> bool {
    match strategy {
        WindowingStrategy::Session { gap_secs } => lists_sessions(plan, times, gap_secs as int),
        _ => lists_by_window(plan, times.len(), covering(strategy, times)),
    }
}

/// Whether `result` holds the windows of `plan`, each with clones of the
/// elements that it lists.
pub open spec fn gathers_plan<T: Clone>(
    source: Seq<TimestampedValue<T>>,
    plan: Seq<(Window, Seq<int>)>,
    result: Seq<(Window, Vec<TimestampedValue<T>>)>,
) -> bool {
    &&& result.len() == plan.len()
    &&& forall|i: int|
        #![trigger result[i]]
        #![trigger plan[i]]
        0 <= i < plan.len() ==> result[i].0 == plan[i].0 && collection::gathers(
            source,
            plan[i].1,
            result[i].1@,
        )
}

/// Whether `after` is `before` with position `k` added to `window`.
pub open spec fn placed(
    before: Seq<(Window, Seq<int>)>,
    after: Seq<(Window, Seq<int>)>,
    window: Window,
    k: int,
) -> bool {
    ||| exists|at: int|
        {
            &&& 0 <= at < before.len()
            &&& (#[trigger] before[at]).0 == window
            &&& after == before.update(at, (window, before[at].1.push(k)))
        }
    ||| exists|at: int|
        {
            &&& 0 <= at <= before.len()
            &&& forall|i: int| 0 <= i < at ==> (#[trigger] before[i]).0.start < window.start
            &&& forall|i: int|
                at <= i < before.len() ==> (#[trigger] before[i]).0.start > window.start
            &&& after == #[trigger] before.insert(at, (window, seq![k]))
        }
}

/// A plan lists positions of elements only.
pub proof fn lemma_plan_in_range(
    plan: Seq<(Window, Seq<int>)>,
    strategy: WindowingStrategy,
    times: Seq<Timestamp>,
)
    requires
        is_plan(plan, strategy, times),
    ensures
        forall|i: int, j: int|
            0 <= i < plan.len() && 0 <= j < plan[i].1.len() ==> 0 <= #[trigger] plan[i].1[j]
                < times.len(),
{
    assert forall|i: int, j: int| 0 <= i < plan.len() && 0 <= j < plan[i].1.len() implies 0
        <= #[trigger] plan[i].1[j] < times.len() by {
        match strategy {
            WindowingStrategy::Session { gap_secs } => {
                let at = lemma_flat_index(plan, i, j);
            },
            _ => {
                let p = covering(strategy, times);
                index::lemma_positions(times.len(), |k: int| p(k, plan[i].0));
            },
        }
    }
}

/// Where position `j` of window `i` stands among all positions of a plan.
pub proof fn lemma_flat_index(plan: Seq<(Window, Seq<int>)>, i: int, j: int) -> (at: int)
    requires
        0 <= i < plan.len(),
        0 <= j < plan[i].1.len(),
    ensures
        0 <= at < all_positions(plan).len(),
        all_positions(plan)[at] == plan[i].1[j],
        at == all_positions(plan.take(i)).len() + j,
    decreases plan.len(),
{
    let rest = plan.drop_last();
    lemma_all_positions_push(rest, plan.last());
    assert(rest.push(plan.last()) =~= plan);
    if i < plan.len() - 1 {
        assert(rest.take(i) =~= plan.take(i));
        lemma_flat_index(rest, i, j)
    } else {
        assert(plan.take(i) =~= rest);
        all_positions(rest).len() + j
    }
}

/// The positions of a plan with one more window.
pub proof fn lemma_all_positions_push(plan: Seq<(Window, Seq<int>)>, entry: (Window, Seq<int>))
    ensures
        all_positions(plan.push(entry)) == all_positions(plan) + entry.1,
{
    let lists = plan.map_values(|entry: (Window, Seq<int>)| entry.1);
    assert(plan.push(entry).map_values(|entry: (Window, Seq<int>)| entry.1) =~= lists.push(
        entry.1,
    ));
    lists.lemma_flatten_push(entry.1);
}

/// A plan stays right when the relation changes only where the plan does not
/// look, or grows by positions that are in no window.
pub proof fn lemma_plan_agrees(
    plan: Seq<(Window, Seq<int>)>,
    n: nat,
    p: spec_fn(int, Window) -> bool,
    m: nat,
    q: spec_fn(int, Window) -> bool,
)
    requires
        lists_by_window(plan, n, p),
        n <= m,
        forall|k: int, w: Window| 0 <= k < n ==> #[trigger] q(k, w) == p(k, w),
        forall|k: int, w: Window| n <= k < m ==> !#[trigger] q(k, w),
    ensures
        lists_by_window(plan, m, q),
{
    assert forall|i: int| 0 <= i < plan.len() implies {
        &&& (#[trigger] plan[i]).1 == members(m, q, plan[i].0)
        &&& plan[i].1.len() > 0
    } by {
        let w = plan[i].0;
        lemma_positions_extend(n, |k: int| p(k, w), m, |k: int| q(k, w));
    }
    assert forall|k: int, w: Window| 0 <= k < m && #[trigger] q(k, w) implies has_window(
        plan,
        w,
    ) by {
        if k < n {
            assert(p(k, w));
        }
    }
}

/// Positions stay the same where only numbers that do not count are added.
pub proof fn lemma_positions_extend(n: nat, p: spec_fn(int) -> bool, m: nat, q: spec_fn(int) -> bool)
    requires
        n <= m,
        forall|k: int| 0 <= k < n ==> #[trigger] q(k) == p(k),
        forall|k: int| n <= k < m ==> !#[trigger] q(k),
    ensures
        index::positions(n, p) == index::positions(m, q),
    decreases m,
{
    if n == m {
        assert forall|k: int| 0 <= k < n implies #[trigger] p(k) == q(k) by {
            assert(q(k) == p(k));
        }
        index::lemma_positions_agree(n, p, q);
    } else {
        lemma_positions_extend(n, p, (m - 1) as nat, q);
    }
}

/// Adding the last position to one more window keeps the plan right.
pub proof fn lemma_placed(
    before: Seq<(Window, Seq<int>)>,
    after: Seq<(Window, Seq<int>)>,
    n: nat,
    p: spec_fn(int, Window) -> bool,
    q: spec_fn(int, Window) -> bool,
    window: Window,
)
    requires
        n > 0,
        lists_by_window(before, n, p),
        placed(before, after, window, n - 1),
        !p(n - 1, window),
        forall|k: int, w: Window|
            0 <= k < n ==> (#[trigger] q(k, w) <==> p(k, w) || (k == n - 1 && w == window)),
    ensures
        lists_by_window(after, n, q),
{
    let k = n - 1;
    assert forall|w: Window| w != window implies #[trigger] members(n, q, w) == members(n, p, w) by {
        index::lemma_positions_agree(n, |i: int| q(i, w), |i: int| p(i, w));
    }
    assert(members(n, q, window) == members(n, p, window).push(k)) by {
        index::lemma_positions_agree(
            k as nat,
            |i: int| q(i, window),
            |i: int| p(i, window),
        );
    }
    if exists|at: int|
        {
            &&& 0 <= at < before.len()
            &&& (#[trigger] before[at]).0 == window
            &&& after == before.update(at, (window, before[at].1.push(k)))
        } {
        let at = choose|at: int|
            {
                &&& 0 <= at < before.len()
                &&& (#[trigger] before[at]).0 == window
                &&& after == before.update(at, (window, before[at].1.push(k)))
            };
        assert forall|i: int| 0 <= i < after.len() implies {
            &&& (#[trigger] after[i]).1 == members(n, q, after[i].0)
            &&& after[i].1.len() > 0
        } by {
            if i != at {
                assert(before[i].0 != window);
                assert(after[i] == before[i]);
            }
        }
        assert forall|k: int, w: Window| 0 <= k < n && #[trigger] q(k, w) implies has_window(
            after,
            w,
        ) by {
            if w == window {
                assert(after[at].0 == w);
            } else {
                assert(p(k, w));
                let i = choose|i: int| 0 <= i < before.len() && (#[trigger] before[i]).0 == w;
                assert(after[i].0 == w);
            }
        }
    } else {
        let at = choose|at: int|
            {
                &&& 0 <= at <= before.len()
                &&& forall|i: int| 0 <= i < at ==> (#[trigger] before[i]).0.start < window.start
                &&& forall|i: int|
                    at <= i < before.len() ==> (#[trigger] before[i]).0.start > window.start
                &&& after == #[trigger] before.insert(at, (window, seq![k]))
            };
        assert(!has_window(before, window));
        assert(members(n, p, window).len() == 0) by {
            index::lemma_positions(n, |i: int| p(i, window));
            if members(n, p, window).len() > 0 {
                let i = members(n, p, window)[0];
                assert(p(i, window));
            }
        }
        assert(members(n, q, window) =~= seq![k]);
        assert forall|i: int, j: int| 0 <= i < j < after.len() implies (
        #[trigger] after[i]).0.start < (#[trigger] after[j]).0.start by {
            let bi = if i < at {
                i
            } else {
                i - 1
            };
            let bj = if j < at {
                j
            } else {
                j - 1
            };
            if i != at {
                assert(after[i] == before[bi]);
            }
            if j != at {
                assert(after[j] == before[bj]);
            }
        }
        assert forall|i: int| 0 <= i < after.len() implies {
            &&& (#[trigger] after[i]).1 == members(n, q, after[i].0)
            &&& after[i].1.len() > 0
        } by {
            if i != at {
                let b = if i < at {
                    i
                } else {
                    i - 1
                };
                assert(after[i] == before[b]);
                assert(before[b].0 != window);
            }
        }
        assert forall|k: int, w: Window| 0 <= k < n && #[trigger] q(k, w) implies has_window(
            after,
            w,
        ) by {
            if w == window {
                assert(after[at].0 == w);
            } else {
                assert(p(k, w));
                let i = choose|i: int| 0 <= i < before.len() && (#[trigger] before[i]).0 == w;
                let a = if i < at {
                    i
                } else {
                    i + 1
                };
                assert(after[a] == before[i]);
            }
        }
    }
}

/// Different multiples of `step` are at least `step` apart.
pub proof fn lemma_multiples_apart(step: int, a: int, b: int)
    requires
        step > 0,
        a % step == 0,
        b % step == 0,
        a < b,
    ensures
        b - a >= step,
{
    lemma_sub_mod_noop(b, a, step);
    lemma_small_mod(0, step as nat);
    if b - a < step {
        lemma_small_mod((b - a) as nat, step as nat);
    }
}

/// Where the first window starts that ends at a multiple of the slide after
/// `secs`.
pub open spec fn first_aligned_start(secs: int, size: int, slide: int) -> int {
    (secs / slide) * slide + slide - size
}

/// From the first aligned start on, the aligned starts are one slide apart.
pub proof fn lemma_aligned_starts(secs: int, size: int, slide: int, j: int)
    requires
        size > 0,
        slide > 0,
    ensures
        aligned_count(secs, size, slide) >= 0,
        0 <= j < aligned_count(secs, size, slide) ==> aligned_start(
            secs,
            size,
            slide,
            first_aligned_start(secs, size, slide) + j * slide,
        ),
{
    let base = (secs / slide) * slide;
    let first = first_aligned_start(secs, size, slide);
    let r = secs % slide;
    let count = aligned_count(secs, size, slide);
    lemma_fundamental_div_mod(secs, slide);
    lemma_mul_is_commutative(slide, secs / slide);
    lemma_mod_bound(secs, slide);
    lemma_div_pos_is_pos(r + size, slide);
    lemma_fundamental_div_mod(r + size, slide);
    lemma_mod_bound(r + size, slide);
    if 0 <= j < count {
        assert(0 <= j * slide && j * slide + slide <= slide * count) by (nonlinear_arith)
            requires
                0 <= j,
                j + 1 <= count,
                slide > 0,
        ;
        assert(first + j * slide + size == (secs / slide + 1 + j) * slide) by (nonlinear_arith)
            requires
                first == (secs / slide) * slide + slide - size,
        ;
        lemma_mod_multiples_basic(secs / slide + 1 + j, slide);
    }
}

/// Which of the aligned starts a given one is.
pub proof fn lemma_aligned_index(secs: int, size: int, slide: int, start: int) -> (j: int)
    requires
        size > 0,
        slide > 0,
        aligned_start(secs, size, slide, start),
    ensures
        0 <= j < aligned_count(secs, size, slide),
        start == first_aligned_start(secs, size, slide) + j * slide,
        first_aligned_start(secs, size, slide) <= start,
        start + size <= (secs / slide) * slide + aligned_count(secs, size, slide) * slide,
{
    let m = secs / slide;
    let r = secs % slide;
    let end = start + size;
    let count = aligned_count(secs, size, slide);
    lemma_fundamental_div_mod(secs, slide);
    lemma_mod_bound(secs, slide);
    lemma_fundamental_div_mod(r + size, slide);
    lemma_mod_bound(r + size, slide);
    lemma_fundamental_div_mod(end, slide);
    let j = end / slide - m - 1;
    assert(start == m * slide + slide - size + j * slide && j * slide == end - m * slide - slide
        && m * slide == slide * m) by (nonlinear_arith)
        requires
            end == slide * (end / slide),
            j == end / slide - m - 1,
            end == start + size,
    ;
    assert(j >= 0) by (nonlinear_arith)
        requires
            j * slide + slide > 0,
            slide > 0,
    ;
    assert(j < count) by (nonlinear_arith)
        requires
            j * slide + slide < slide * count + slide,
            slide > 0,
    ;
    assert((j + 1) * slide <= count * slide && 0 <= j * slide && (j + 1) * slide == j * slide
        + slide) by (nonlinear_arith)
        requires
            0 <= j,
            j + 1 <= count,
            slide > 0,
    ;
    j
}

/// The further window holds `secs`, and where it is needed it does not end at a
/// multiple of the slide. At most one further window is needed.
pub proof fn lemma_further_start(secs: int, size: int, slide: int)
    requires
        size > 0,
        slide > 0,
    ensures
        (secs / slide) * slide <= further_start(secs, size, slide),
        further_start(secs, size, slide) <= secs < further_start(secs, size, slide) + size,
        aligned_count(secs, size, slide) < sliding_count(size, slide) ==> !aligned_start(
            secs,
            size,
            slide,
            further_start(secs, size, slide),
        ),
        aligned_count(secs, size, slide) <= sliding_count(size, slide) <= aligned_count(
            secs,
            size,
            slide,
        ) + 1,
        size % slide == 0 ==> aligned_count(secs, size, slide) == sliding_count(size, slide),
        aligned_count(secs, size, slide) < sliding_count(size, slide) <==> size % slide != 0 && secs
            % slide + size % slide < slide,
        further_start(secs, size, slide) == secs - secs % slide % size,
        sliding_count(size, slide) >= 1,
{
    let m = secs / slide;
    let r = secs % slide;
    let (q, s) = (size / slide, size % slide);
    let tile = r / size;
    let over = r % size;
    let count = aligned_count(secs, size, slide);
    let wanted = sliding_count(size, slide);
    lemma_fundamental_div_mod(secs, slide);
    lemma_mul_is_commutative(slide, m);
    lemma_mod_bound(secs, slide);
    lemma_fundamental_div_mod(r, size);
    lemma_mul_is_commutative(size, tile);
    lemma_mod_bound(r, size);
    lemma_div_pos_is_pos(r, size);
    assert(tile * size >= 0) by (nonlinear_arith)
        requires
            tile >= 0,
            size > 0,
    ;
    lemma_fundamental_div_mod(size, slide);
    lemma_mod_bound(size, slide);
    lemma_div_pos_is_pos(size, slide);
    assert(r + size == q * slide + (r + s) && r + size == (q + 1) * slide + (r + s - slide) && size
        + slide - 1 == q * slide + (s + slide - 1) && size + slide - 1 == (q + 1) * slide + (s
        - 1)) by (nonlinear_arith)
        requires
            size == slide * q + s,
    ;
    if s == 0 {
        lemma_fundamental_div_mod_converse(size + slide - 1, slide, q, slide - 1);
        lemma_fundamental_div_mod_converse(r + size, slide, q, r);
        assert(q >= 1) by {
            if q == 0 {
                assert(slide * q == 0) by (nonlinear_arith)
                    requires
                        q == 0,
                ;
            }
        }
    } else {
        lemma_fundamental_div_mod_converse(size + slide - 1, slide, q + 1, s - 1);
        if r + s < slide {
            lemma_fundamental_div_mod_converse(r + size, slide, q, r + s);
            // The end is `past` after a multiple of the slide.
            let past = tile * size + s;
            assert(0 < past < slide) by {
                if q == 0 {
                    assert(slide * q == 0) by (nonlinear_arith)
                        requires
                            q == 0,
                    ;
                } else {
                    assert(slide * q >= slide) by (nonlinear_arith)
                        requires
                            q >= 1,
                            slide > 0,
                    ;
                    lemma_basic_div(r, size);
                    assert(tile * size == 0) by (nonlinear_arith)
                        requires
                            tile == 0,
                    ;
                }
            }
            let end = further_start(secs, size, slide) + size;
            assert(end == (m + q) * slide + past) by (nonlinear_arith)
                requires
                    end == m * slide + tile * size + size,
                    size == slide * q + s,
                    past == tile * size + s,
            ;
            lemma_fundamental_div_mod_converse(end, slide, m + q, past);
        } else {
            lemma_fundamental_div_mod_converse(r + size, slide, q + 1, r + s - slide);
        }
    }
}

} // verus!
