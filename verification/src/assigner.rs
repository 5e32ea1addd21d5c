use vstd::arithmetic::div_mod::*;
use vstd::arithmetic::mul::*;
use vstd::prelude::*;

use crate::collection;
use crate::collection::{PCollection, TimestampedValue};
use crate::order;
use crate::plan;
use crate::window::{Window, WindowingStrategy};

verus! {

/// Divides elements into windows by their event times.
pub struct WindowAssigner;

/// A list of windows with positions as a mathematical plan.
pub open spec fn as_plan(list: Seq<(Window, Vec<usize>)>) -> Seq<(Window, Seq<int>)> {
    list.map_values(|entry: (Window, Vec<usize>)| (entry.0, order::as_positions(entry.1@)))
}

impl WindowAssigner {
    /// Divides the elements of a collection into the windows of a strategy.
    ///
    /// Fixed and sliding windows come ordered by start, each with its elements
    /// in the order of the collection; sessions come in time order, as do
    /// their elements.
    pub fn assign<T: Clone>(input: &PCollection<T>, strategy: &WindowingStrategy) -> (result: Vec<
        (Window, Vec<TimestampedValue<T>>),
    >)
        requires
            plan::assignable(*strategy, collection::times(input.elements@)),
        ensures
            exists|plan: Seq<(Window, Seq<int>)>|
                {
                    &&& #[trigger] plan::is_plan(
                        plan,
                        *strategy,
                        collection::times(input.elements@),
                    )
                    &&& plan::gathers_plan(input.elements@, plan, result@)
                },
    {
        let list = Self::plan_windows(input, strategy);
        let ghost plan = as_plan(list@);
        let ghost given = list@;
        proof {
            plan::lemma_plan_in_range(plan, *strategy, collection::times(input.elements@));
        }
        let mut result: Vec<(Window, Vec<TimestampedValue<T>>)> = Vec::new();
        for entry in it: list.into_iter()
            invariant
                it.seq() == given,
                plan == as_plan(given),
                result.len() == it.index(),
                forall|i: int, j: int|
                    0 <= i < plan.len() && 0 <= j < plan[i].1.len() ==> 0
                        <= #[trigger] plan[i].1[j] < input.elements.len(),
                forall|i: int|
                    0 <= i < it.index() ==> (#[trigger] result[i]).0 == plan[i].0
                        && collection::gathers(input.elements@, plan[i].1, result[i].1@),
        {
            let (window, positions) = entry;
            let ghost picked = order::as_positions(positions@);
            assert(plan[it.index() as int] == (window, picked));
            assert forall|j: int| 0 <= j < picked.len() implies 0 <= #[trigger] picked[j]
                < input.elements.len() by {
                assert(plan[it.index() as int].1[j] == picked[j]);
            }
            let mut elements: Vec<TimestampedValue<T>> = Vec::new();
            let mut j: usize = 0;
            while j < positions.len()
                invariant
                    j <= positions.len(),
                    picked == order::as_positions(positions@),
                    forall|j: int|
                        0 <= j < picked.len() ==> 0 <= #[trigger] picked[j] < input.elements.len(),
                    elements.len() == j,
                    forall|m: int|
                        0 <= m < j ==> collection::clone_of(
                            input.elements[picked[m]],
                            #[trigger] elements[m],
                        ),
                decreases positions.len() - j,
            {
                assert(picked[j as int] == positions[j as int]);
                elements.push(input.elements[positions[j]].clone());
                j = j + 1;
            }
            result.push((window, elements));
        }
        result
    }

    /// Whether a strategy can divide a collection: for every element, its size
    /// or slide is not 0, sliding windows of a positive size have a positive
    /// slide, and every bound that it needs lies within `i64`.
    pub fn can_assign<T: Clone>(input: &PCollection<T>, strategy: &WindowingStrategy) -> (possible:
        bool)
        ensures
            possible == plan::assignable(*strategy, collection::times(input.elements@)),
    {
        let ghost times = collection::times(input.elements@);
        let mut k: usize = 0;
        while k < input.elements.len()
            invariant
                k <= input.elements.len(),
                times == collection::times(input.elements@),
                forall|m: int|
                    0 <= m < k ==> plan::fits_one(*strategy, (#[trigger] times[m]).secs()),
            decreases input.elements.len() - k,
        {
            let secs: i64 = input.elements[k].timestamp.seconds();
            assert(times[k as int].secs() == secs);
            let fits: bool = match strategy {
                WindowingStrategy::Fixed { size_secs } => Self::fixed_fits(secs, *size_secs),
                WindowingStrategy::Sliding { size_secs, slide_secs } => {
                    Self::sliding_fits(secs, *size_secs, *slide_secs)
                },
                WindowingStrategy::Session { gap_secs } => secs.checked_add(*gap_secs).is_some(),
            };
            if !fits {
                return false;
            }
            k = k + 1;
        }
        true
    }

    /// Whether the fixed window of a second lies within `i64`.
    fn fixed_fits(secs: i64, size: i64) -> (fits: bool)
        ensures
            fits == plan::fixed_fits(secs as int, size as int),
    {
        if size == 0 {
            return false;
        }
        let start: i128 = secs as i128 - Self::remainder(secs as i128, size);
        let end: i128 = start + size as i128;
        proof {
            lemma_fundamental_div_mod(secs as int, size as int);
            lemma_mul_is_commutative(size as int, secs as int / size as int);
        }
        i64::MIN as i128 <= start && i64::MIN as i128 <= end && end <= i64::MAX as i128
    }

    /// Whether the sliding windows of a second lie within `i64`.
    fn sliding_fits(secs: i64, size: i64, slide: i64) -> (fits: bool)
        ensures
            fits == plan::sliding_fits(secs as int, size as int, slide as int),
    {
        if slide == 0 {
            return false;
        }
        if size <= 0 {
            return true;
        }
        if slide < 0 {
            return false;
        }
        let second: i128 = secs as i128;
        let over: i128 = Self::remainder(second, slide);
        let base: i128 = second - over;
        let aligned: i128 = ((over as u128 + size as u128) / (slide as u128)) as i128;
        proof {
            let (n, m, d) = (secs as int, size as int, slide as int);
            lemma_fundamental_div_mod(n, d);
            lemma_mul_is_commutative(d, n / d);
            lemma_mod_bound(n, d);
            lemma_aligned_fits(n, m, d);
        }
        if aligned > 0 {
            let first: i128 = base + slide as i128 - size as i128;
            let end: i128 = base + aligned * (slide as i128);
            if first < i64::MIN as i128 || end > i64::MAX as i128 {
                return false;
            }
        }
        match Self::further(secs, size, slide) {
            Some(start) => {
                proof {
                    assert(plan::sliding_start(
                        secs as int,
                        size as int,
                        slide as int,
                        start as int,
                    ));
                }
                i64::MIN as i128 <= start && start + size as i128 <= i64::MAX as i128
            },
            None => true,
        }
    }

    /// Where the further window of a second starts, if it needs one.
    fn further(secs: i64, size: i64, slide: i64) -> (start: Option<i128>)
        requires
            size > 0,
            slide > 0,
        ensures
            match start {
                Some(start) => plan::aligned_count(secs as int, size as int, slide as int)
                    < plan::sliding_count(size as int, slide as int) && start
                    == plan::further_start(secs as int, size as int, slide as int) && start <= secs
                    && start > secs - size,
                None => plan::aligned_count(secs as int, size as int, slide as int)
                    >= plan::sliding_count(size as int, slide as int),
            },
    {
        let second: i128 = secs as i128;
        let over: i128 = Self::remainder(second, slide);
        let (long, step): (u128, u128) = (size as u128, slide as u128);
        proof {
            let (n, m, d) = (secs as int, size as int, slide as int);
            lemma_fundamental_div_mod(n, d);
            lemma_mul_is_commutative(d, n / d);
            plan::lemma_further_start(n, m, d);
            lemma_fundamental_div_mod(over as int, m);
            lemma_mul_is_commutative(m, over as int / m);
        }
        if (over as u128 + long) / step < (long + step - 1) / step {
            let into: i128 = (over as u128 % long) as i128;
            Some(second - into)
        } else {
            None
        }
    }

    /// The remainder of a floor division.
    fn remainder(n: i128, step: i64) -> (rest: i128)
        requires
            step != 0,
            -0x1_0000_0000_0000_0000 <= n <= 0x1_0000_0000_0000_0000,
        ensures
            rest == n as int % step as int,
            0 <= rest < 0x8000_0000_0000_0001,
    {
        proof {
            lemma_fundamental_div_mod(n as int, step as int);
        }
        match n.checked_rem_euclid(step as i128) {
            Some(rest) => rest,
            None => 0,
        }
    }

    /// The windows of a strategy, each with the positions of its elements.
    pub(crate) fn plan_windows<T: Clone>(
        input: &PCollection<T>,
        strategy: &WindowingStrategy,
    ) -> (list: Vec<(Window, Vec<usize>)>)
        requires
            plan::assignable(*strategy, collection::times(input.elements@)),
        ensures
            plan::is_plan(as_plan(list@), *strategy, collection::times(input.elements@)),
    {
        match strategy {
            WindowingStrategy::Fixed { size_secs } => Self::assign_fixed(input, *size_secs),
            WindowingStrategy::Sliding { size_secs, slide_secs } => {
                Self::assign_sliding(input, *size_secs, *slide_secs)
            },
            WindowingStrategy::Session { gap_secs } => Self::assign_session(input, *gap_secs),
        }
    }

    /// Adds position `k` to the given window of a list ordered by start.
    fn place(list: &mut Vec<(Window, Vec<usize>)>, window: Window, k: usize)
        requires
            forall|i: int, j: int|
                0 <= i < j < old(list).len() ==> (#[trigger] old(list)[i]).0.start < (
                #[trigger] old(list)[j]).0.start,
            forall|i: int|
                0 <= i < old(list).len() && (#[trigger] old(list)[i]).0.start == window.start
                    ==> old(list)[i].0 == window,
        ensures
            plan::placed(as_plan(old(list)@), as_plan(final(list)@), window, k as int),
    {
        let mut low: usize = 0;
        let mut high: usize = list.len();
        while low < high
            invariant
                list@ == old(list)@,
                low <= high <= list.len(),
                forall|i: int, j: int|
                    0 <= i < j < list.len() ==> (#[trigger] list[i]).0.start < (
                    #[trigger] list[j]).0.start,
                forall|i: int| 0 <= i < low ==> (#[trigger] list[i]).0.start < window.start,
                forall|i: int|
                    high <= i < list.len() ==> (#[trigger] list[i]).0.start >= window.start,
            decreases high - low,
        {
            let middle: usize = low + (high - low) / 2;
            if list[middle].0.start < window.start {
                low = middle + 1;
            } else {
                high = middle;
            }
        }
        let ghost before = as_plan(list@);
        if low < list.len() && list[low].0.start == window.start {
            list[low].1.push(k);
            proof {
                assert(before[low as int].0 == window);
                assert(as_plan(list@) =~= before.update(
                    low as int,
                    (window, before[low as int].1.push(k as int)),
                )) by {
                    assert(order::as_positions(list[low as int].1@) =~= before[low as int].1.push(
                        k as int,
                    ));
                }
            }
        } else {
            let mut positions: Vec<usize> = Vec::new();
            positions.push(k);
            let ghost inserted = window;
            list.insert(low, (window, positions));
            proof {
                assert(order::as_positions(positions@) =~= seq![k as int]);
                assert(as_plan(list@) =~= before.insert(low as int, (inserted, seq![k as int])));
            }
        }
    }

    /// The multiple of `step` at or below `secs`: `floor(secs / step) * step`,
    /// also for negative seconds.
    fn multiple_below(secs: i64, step: i64) -> (multiple: i64)
        requires
            step != 0,
            i64::MIN <= (secs as int / step as int) * step,
        ensures
            multiple == (secs as int / step as int) * step,
            multiple <= secs,
    {
        proof {
            lemma_fundamental_div_mod(secs as int, step as int);
            lemma_mul_is_commutative(step as int, secs as int / step as int);
        }
        if step == -1 {
            return secs;
        }
        match secs.checked_rem_euclid(step) {
            Some(over) => secs - over,
            None => secs,
        }
    }

    /// The fixed windows of the elements: each element is in the window that
    /// starts at `floor(seconds / size) * size`.
    fn assign_fixed<T: Clone>(input: &PCollection<T>, size: i64) -> (list: Vec<
        (Window, Vec<usize>),
    >)
        requires
            plan::assignable(
                (WindowingStrategy::Fixed { size_secs: size }),
                collection::times(input.elements@),
            ),
        ensures
            plan::lists_by_window(
                as_plan(list@),
                input.elements@.len(),
                plan::covering(
                    (WindowingStrategy::Fixed { size_secs: size }),
                    collection::times(input.elements@),
                ),
            ),
    {
        let ghost strategy = WindowingStrategy::Fixed { size_secs: size };
        let ghost times = collection::times(input.elements@);
        let ghost p = plan::covering(strategy, times);
        let mut list: Vec<(Window, Vec<usize>)> = Vec::new();
        let mut k: usize = 0;
        while k < input.elements.len()
            invariant
                k <= input.elements.len(),
                strategy == (WindowingStrategy::Fixed { size_secs: size }),
                times == collection::times(input.elements@),
                p == plan::covering(strategy, times),
                plan::assignable(strategy, times),
                plan::lists_by_window(as_plan(list@), k as nat, p),
            decreases input.elements.len() - k,
        {
            let secs: i64 = input.elements[k].timestamp.seconds();
            assert(times[k as int].secs() == secs);
            let start: i64 = Self::multiple_below(secs, size);
            let window = Window { start, end: start + size };
            let ghost before = as_plan(list@);
            let ghost q0 = |i: int, w: Window| i < k && p(i, w);
            let ghost q1 = |i: int, w: Window| (i < k && p(i, w)) || (i == k && w == window);
            proof {
                plan::lemma_plan_agrees(before, k as nat, p, (k + 1) as nat, q0);
                lemma_list_order(list@, k as nat, p);
                lemma_list_sizes(list@, k as nat, p, size as int);
            }
            Self::place(&mut list, window, k);
            proof {
                plan::lemma_placed(before, as_plan(list@), (k + 1) as nat, q0, q1, window);
                assert forall|i: int, w: Window| 0 <= i < k + 1 implies #[trigger] p(i, w) == q1(
                    i,
                    w,
                ) by {}
                plan::lemma_plan_agrees(as_plan(list@), (k + 1) as nat, q1, (k + 1) as nat, p);
            }
            k = k + 1;
        }
        list
    }

    /// The sliding windows of the elements: each element is in every window of
    /// the size that holds its second and ends at a multiple of the slide and,
    /// where these are fewer than `size / slide` rounded up, in a further one.
    fn assign_sliding<T: Clone>(input: &PCollection<T>, size: i64, slide: i64) -> (list: Vec<
        (Window, Vec<usize>),
    >)
        requires
            plan::assignable(
                (WindowingStrategy::Sliding { size_secs: size, slide_secs: slide }),
                collection::times(input.elements@),
            ),
        ensures
            plan::lists_by_window(
                as_plan(list@),
                input.elements@.len(),
                plan::covering(
                    (WindowingStrategy::Sliding { size_secs: size, slide_secs: slide }),
                    collection::times(input.elements@),
                ),
            ),
    {
        let ghost strategy = WindowingStrategy::Sliding { size_secs: size, slide_secs: slide };
        let ghost times = collection::times(input.elements@);
        let ghost p = plan::covering(strategy, times);
        let mut list: Vec<(Window, Vec<usize>)> = Vec::new();
        let mut k: usize = 0;
        while k < input.elements.len()
            invariant
                k <= input.elements.len(),
                strategy == (WindowingStrategy::Sliding { size_secs: size, slide_secs: slide }),
                times == collection::times(input.elements@),
                p == plan::covering(strategy, times),
                plan::assignable(strategy, times),
                plan::lists_by_window(as_plan(list@), k as nat, p),
            decreases input.elements.len() - k,
        {
            let secs: i64 = input.elements[k].timestamp.seconds();
            assert(times[k as int].secs() == secs);
            let second: i128 = secs as i128;
            let mut start: i128 = second - Self::remainder(second, slide) + slide as i128
                - size as i128;
            let ghost (n, m, d) = (secs as int, size as int, slide as int);
            let ghost first = start as int;
            let ghost q0 = |i: int, w: Window| i < k && p(i, w);
            let ghost q = |i: int, w: Window|
                (i < k && p(i, w)) || (i == k && aligned(n, m, d, w) && w.start < start);
            proof {
                lemma_fundamental_div_mod(n, d);
                lemma_mul_is_commutative(d, n / d);
                plan::lemma_plan_agrees(as_plan(list@), k as nat, p, (k + 1) as nat, q0);
                assert forall|w: Window| #[trigger] aligned(n, m, d, w) implies w.start >= first by {
                    let j = plan::lemma_aligned_index(n, m, d, w.start as int);
                }
                assert forall|i: int, w: Window| 0 <= i < k + 1 implies #[trigger] q(i, w) == q0(
                    i,
                    w,
                ) by {}
                plan::lemma_plan_agrees(as_plan(list@), (k + 1) as nat, q0, (k + 1) as nat, q);
                if size > 0 {
                    lemma_mod_bound(n, d);
                    assert(first + m == (n / d + 1) * d) by (nonlinear_arith)
                        requires
                            first == (n / d) * d + d - m,
                    ;
                    lemma_mod_multiples_basic(n / d + 1, d);
                }
            }
            while size > 0 && start <= second
                invariant
                    k < input.elements.len(),
                    strategy == (WindowingStrategy::Sliding { size_secs: size, slide_secs: slide }),
                    p == plan::covering(strategy, times),
                    times[k as int].secs() == secs,
                    second == secs,
                    (n, m, d) == (secs as int, size as int, slide as int),
                    plan::sliding_fits(n, m, d),
                    size > 0 ==> n - m < first <= start && (start + m) % d == 0,
                    plan::lists_by_window(
                        as_plan(list@),
                        (k + 1) as nat,
                        |i: int, w: Window|
                            (i < k && p(i, w)) || (i == k && aligned(n, m, d, w) && w.start
                                < start),
                    ),
                decreases second + slide - start,
            {
                let ghost q = |i: int, w: Window|
                    (i < k && p(i, w)) || (i == k && aligned(n, m, d, w) && w.start < start);
                proof {
                    assert(plan::sliding_start(n, m, d, start as int));
                    lemma_mod_add_multiples_vanish(start + m, d);
                }
                let window = Window { start: start as i64, end: start as i64 + size };
                let ghost before = as_plan(list@);
                let ghost next = start + slide;
                let ghost q1 = |i: int, w: Window|
                    (i < k && p(i, w)) || (i == k && aligned(n, m, d, w) && w.start < next);
                proof {
                    lemma_list_order(list@, (k + 1) as nat, q);
                    assert(aligned(n, m, d, window));
                    assert forall|w: Window| #[trigger] aligned(n, m, d, w) && start <= w.start
                        < next implies w == window by {
                        if start < w.start {
                            plan::lemma_multiples_apart(d, window.end as int, w.end as int);
                        }
                    }
                    assert forall|i: int, w: Window|
                        0 <= i < k + 1 implies (#[trigger] q1(i, w) <==> q(i, w) || (i == k && w
                        == window)) by {}
                    lemma_list_sizes(list@, (k + 1) as nat, q, size as int);
                }
                Self::place(&mut list, window, k);
                proof {
                    plan::lemma_placed(before, as_plan(list@), (k + 1) as nat, q, q1, window);
                }
                start = start + slide as i128;
            }
            let ghost done = |i: int, w: Window|
                (i < k && p(i, w)) || (i == k && aligned(n, m, d, w) && w.start < start);
            let ghost before = as_plan(list@);
            let further: Option<i128> = if size > 0 {
                Self::further(secs, size, slide)
            } else {
                None
            };
            if let Some(start) = further {
                proof {
                    assert(plan::sliding_start(n, m, d, start as int));
                    plan::lemma_further_start(n, m, d);
                    lemma_list_order(list@, (k + 1) as nat, done);
                    lemma_list_sizes(list@, (k + 1) as nat, done, size as int);
                }
                let window = Window { start: start as i64, end: start as i64 + size };
                Self::place(&mut list, window, k);
                proof {
                    assert(!aligned(n, m, d, window));
                    assert forall|i: int, w: Window|
                        0 <= i < k + 1 implies (#[trigger] p(i, w) <==> done(i, w) || (i == k && w
                        == window)) by {}
                    plan::lemma_placed(before, as_plan(list@), (k + 1) as nat, done, p, window);
                }
            } else {
                proof {
                    assert forall|i: int, w: Window| 0 <= i < k + 1 implies #[trigger] p(i, w)
                        == done(i, w) by {}
                    plan::lemma_plan_agrees(before, (k + 1) as nat, done, (k + 1) as nat, p);
                }
            }
            k = k + 1;
        }
        list
    }

    /// The sessions of the elements: taken in time order, an element more than
    /// `gap` seconds after the one before it starts a new one.
    fn assign_session<T: Clone>(input: &PCollection<T>, gap: i64) -> (list: Vec<
        (Window, Vec<usize>),
    >)
        requires
            plan::assignable(
                (WindowingStrategy::Session { gap_secs: gap }),
                collection::times(input.elements@),
            ),
        ensures
            plan::lists_sessions(
                as_plan(list@),
                collection::times(input.elements@),
                gap as int,
            ),
    {
        let ghost times = collection::times(input.elements@);
        let sorted = order::sort_positions(&input.elements, 0, input.elements.len());
        let ghost ordered = order::as_positions(sorted@);
        let mut list: Vec<(Window, Vec<usize>)> = Vec::new();
        if sorted.len() == 0 {
            assert(plan::all_positions(as_plan(list@)) =~= ordered);
            return list;
        }
        assert(ordered[0] == sorted[0]);
        let mut start: i64 = input.elements[sorted[0]].timestamp.seconds();
        assert(times[ordered[0]].secs() == start);
        let mut end: i64 = start + gap;
        let mut current: Vec<usize> = Vec::new();
        current.push(sorted[0]);
        let mut i: usize = 1;
        proof {
            assert(plan::all_positions(as_plan(list@)) =~= Seq::<int>::empty());
            assert(order::as_positions(current@) =~= ordered.take(1));
        }
        while i < sorted.len()
            invariant
                1 <= i <= sorted.len(),
                times == collection::times(input.elements@),
                ordered == order::as_positions(sorted@),
                order::orders_range(times, ordered, 0, times.len() as int),
                plan::assignable((WindowingStrategy::Session { gap_secs: gap }), times),
                current.len() > 0,
                plan::all_positions(as_plan(list@)) + order::as_positions(current@)
                    == ordered.take(i as int),
                plan::is_run(times, gap as int, order::as_positions(current@)),
                start == times[order::as_positions(current@).first()].secs(),
                end == times[order::as_positions(current@).last()].secs() + gap,
                order::as_positions(current@).last() == ordered[i - 1],
                plan::are_sessions(as_plan(list@), times, gap as int),
                as_plan(list@).len() > 0 ==> !plan::continues(
                    times,
                    gap as int,
                    as_plan(list@).last().1.last(),
                    order::as_positions(current@).first(),
                ),
            decreases sorted.len() - i,
        {
            let k: usize = sorted[i];
            assert(ordered[i as int] == k);
            assert(0 <= ordered[i as int] < times.len());
            let secs: i64 = input.elements[k].timestamp.seconds();
            assert(times[k as int].secs() == secs);
            let ghost before = as_plan(list@);
            let ghost held = order::as_positions(current@);
            assert(ordered.take(i + 1) =~= ordered.take(i as int).push(k as int));
            let last: usize = current[current.len() - 1];
            assert(held.last() == last);
            let (earlier, later) = (&input.elements[last].timestamp, &input.elements[k].timestamp);
            assert(times[last as int] == *earlier && times[k as int] == *later);
            let joins: bool = if earlier.is_nan() || later.is_nan() {
                secs < end
            } else {
                later.is_within(earlier, gap)
            };
            if joins {
                end = secs + gap;
                current.push(k);
                proof {
                    assert(order::as_positions(current@) =~= held.push(k as int));
                    assert(plan::all_positions(before) + held.push(k as int) =~= (
                    plan::all_positions(before) + held).push(k as int));
                }
            } else {
                let mut next: Vec<usize> = Vec::new();
                next.push(k);
                let ghost entry = (Window { start, end }, held);
                list.push((Window { start, end }, current));
                proof {
                    assert(as_plan(list@) =~= before.push(entry));
                    plan::lemma_all_positions_push(before, entry);
                    assert(order::as_positions(next@) =~= seq![k as int]);
                    assert((plan::all_positions(before) + held) + seq![k as int] =~= (
                    plan::all_positions(before) + held).push(k as int));
                }
                start = secs;
                end = secs + gap;
                current = next;
            }
            i = i + 1;
        }
        let ghost before = as_plan(list@);
        let ghost entry = (Window { start, end }, order::as_positions(current@));
        list.push((Window { start, end }, current));
        proof {
            assert(as_plan(list@) =~= before.push(entry));
            plan::lemma_all_positions_push(before, entry);
            assert(ordered.take(ordered.len() as int) =~= ordered);
        }
        list
    }
}

/// Whether a window of the given size holds `secs` and ends at a multiple of the
/// slide.
spec fn aligned(secs: int, size: int, slide: int, window: Window) -> bool {
    &&& window.end == window.start + size
    &&& plan::aligned_start(secs, size, slide, window.start as int)
}

/// The windows that end at multiples of the slide lie within `i64` if the first
/// and the last of them do.
proof fn lemma_aligned_fits(secs: int, size: int, slide: int)
    requires
        size > 0,
        slide > 0,
    ensures
        ({
            let count = plan::aligned_count(secs, size, slide);
            let base = (secs / slide) * slide;
            let first = base + slide - size;
            let end = base + count * slide;
            &&& 0 <= count * slide <= secs % slide + size
            &&& count > 0 ==> plan::sliding_start(secs, size, slide, first) && plan::sliding_start(
                secs,
                size,
                slide,
                end - size,
            )
            &&& forall|start: int| #[trigger]
                plan::aligned_start(secs, size, slide, start) ==> count > 0 && first <= start
                    && start + size <= end
        }),
{
    let count = plan::aligned_count(secs, size, slide);
    let base = (secs / slide) * slide;
    let first = plan::first_aligned_start(secs, size, slide);
    let end = base + count * slide;
    plan::lemma_aligned_starts(secs, size, slide, 0);
    plan::lemma_aligned_starts(secs, size, slide, count - 1);
    lemma_mod_bound(secs, slide);
    lemma_fundamental_div_mod(secs % slide + size, slide);
    lemma_mod_bound(secs % slide + size, slide);
    assert((count - 1) * slide == count * slide - slide && count * slide == slide * count && 0
        <= count * slide) by (nonlinear_arith)
        requires
            count >= 0,
            slide > 0,
    ;
    assert forall|start: int| #[trigger] plan::aligned_start(secs, size, slide, start) implies count
        > 0 && first <= start && start + size <= end by {
        let j = plan::lemma_aligned_index(secs, size, slide, start);
    }
}

/// A list by windows is ordered by their starts.
proof fn lemma_list_order(
    list: Seq<(Window, Vec<usize>)>,
    n: nat,
    p: spec_fn(int, Window) -> bool,
)
    requires
        plan::lists_by_window(as_plan(list), n, p),
    ensures
        forall|i: int, j: int|
            0 <= i < j < list.len() ==> (#[trigger] list[i]).0.start < (
            #[trigger] list[j]).0.start,
{
    let plan = as_plan(list);
    assert forall|i: int, j: int| 0 <= i < j < list.len() implies (#[trigger] list[i]).0.start < (
    #[trigger] list[j]).0.start by {
        assert(plan[i].0 == list[i].0);
        assert(plan[j].0 == list[j].0);
    }
}

/// Where only windows of one size are related, only windows of that size are
/// listed.
proof fn lemma_list_sizes(
    list: Seq<(Window, Vec<usize>)>,
    n: nat,
    p: spec_fn(int, Window) -> bool,
    size: int,
)
    requires
        plan::lists_by_window(as_plan(list), n, p),
        forall|k: int, w: Window| #[trigger] p(k, w) ==> w.end == w.start + size,
    ensures
        forall|i: int|
            0 <= i < list.len() ==> (#[trigger] list[i]).0.end == list[i].0.start + size,
{
    let plan = as_plan(list);
    assert forall|i: int| 0 <= i < list.len() implies (#[trigger] list[i]).0.end == list[i].0.start
        + size by {
        let w = plan[i].0;
        assert(plan[i].0 == list[i].0);
        crate::index::lemma_positions(n, |k: int| p(k, w));
        let k = plan::members(n, p, w)[0];
        assert(p(k, w));
    }
}

} // verus!
