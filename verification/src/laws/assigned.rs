use vstd::arithmetic::mul::*;
use vstd::arithmetic::power2::*;
use vstd::prelude::*;

use crate::collection;
use crate::collection::TimestampedValue;
use crate::index;
use crate::laws::plans;
use crate::laws::rearranging;
use crate::laws::sessions;
use crate::laws::transformed;
use crate::laws::values;
use crate::laws::windows;
use crate::order;
use crate::plan;
use crate::timestamp;
use crate::timestamp::Timestamp;
use crate::window::{Window, WindowingStrategy};

verus! {

/// What is assigned to a window are copies of elements of the collection: each
/// has a clone of the value and the event time of the element that it stands
/// for.
pub proof fn law_assigned_elements_keep_value_and_time<T: Clone>(
    elements: Seq<TimestampedValue<T>>,
    strategy: WindowingStrategy,
    plan: Seq<(Window, Seq<int>)>,
    result: Seq<(Window, Vec<TimestampedValue<T>>)>,
)
    requires
        plan::is_plan(plan, strategy, collection::times(elements)),
        plan::gathers_plan(elements, plan, result),
    ensures
        result.len() == plan.len(),
        forall|i: int|
            0 <= i < plan.len() ==> (#[trigger] result[i]).0 == plan[i].0 && result[i].1@.len()
                == plan[i].1.len(),
        forall|i: int, j: int|
            0 <= i < plan.len() && 0 <= j < plan[i].1.len() ==> {
                let k = #[trigger] plan[i].1[j];
                &&& 0 <= k < elements.len()
                &&& cloned(elements[k].value, result[i].1@[j].value)
                &&& result[i].1@[j].timestamp == elements[k].timestamp
            },
{
    plan::lemma_plan_in_range(plan, strategy, collection::times(elements));
    assert forall|i: int, j: int| 0 <= i < plan.len() && 0 <= j < plan[i].1.len() implies {
        let k = #[trigger] plan[i].1[j];
        &&& 0 <= k < elements.len()
        &&& cloned(elements[k].value, result[i].1@[j].value)
        &&& result[i].1@[j].timestamp == elements[k].timestamp
    } by {
        assert(collection::gathers(elements, plan[i].1, result[i].1@));
        assert(collection::clone_of(elements[plan[i].1[j]], result[i].1@[j]));
    }
}

/// The event times of elements are their own, in their order.
pub proof fn law_times_are_those_of_the_elements<T>(elements: Seq<TimestampedValue<T>>)
    ensures
        collection::times(elements).len() == elements.len(),
        forall|k: int|
            0 <= k < elements.len() ==> (#[trigger] collection::times(elements)[k])
                == elements[k].timestamp,
{
}

/// No element is left out: each is in some window, and with fixed windows and
/// sessions in one only.
pub proof fn law_every_element_is_assigned<T>(
    elements: Seq<TimestampedValue<T>>,
    strategy: WindowingStrategy,
    plan: Seq<(Window, Seq<int>)>,
    k: int,
)
    requires
        plan::assignable(strategy, collection::times(elements)),
        plan::is_plan(plan, strategy, collection::times(elements)),
        strategy matches WindowingStrategy::Sliding { size_secs, slide_secs } ==> size_secs > 0
            && slide_secs > 0,
        0 <= k < elements.len(),
    ensures
        exists|i: int| 0 <= i < plan.len() && (#[trigger] plan[i]).1.contains(k),
        !(strategy is Sliding) ==> forall|i: int, j: int|
            0 <= i < plan.len() && 0 <= j < plan.len() && (#[trigger] plan[i]).1.contains(k) && (
            #[trigger] plan[j]).1.contains(k) ==> i == j,
{
    match strategy {
        WindowingStrategy::Sliding { size_secs, slide_secs } => {
            windows::law_sliding_every_element(
                plan,
                size_secs,
                slide_secs,
                collection::times(elements),
                k,
            );
        },
        _ => {
            lemma_one_window(plan, strategy, collection::times(elements), k);
        },
    }
}

/// No window holds the same element twice.
pub proof fn law_no_element_is_assigned_twice<T>(
    elements: Seq<TimestampedValue<T>>,
    strategy: WindowingStrategy,
    plan: Seq<(Window, Seq<int>)>,
    i: int,
)
    requires
        plan::is_plan(plan, strategy, collection::times(elements)),
        0 <= i < plan.len(),
    ensures
        forall|a: int, b: int|
            0 <= a < b < plan[i].1.len() ==> #[trigger] plan[i].1[a] != #[trigger] plan[i].1[b],
{
    plans::lemma_listed_once(plan, strategy, collection::times(elements), i);
}

/// Fixed and sliding windows come in the order of their starts, and none is
/// empty.
pub proof fn law_windows_come_in_order<T: Clone>(
    elements: Seq<TimestampedValue<T>>,
    strategy: WindowingStrategy,
    plan: Seq<(Window, Seq<int>)>,
    result: Seq<(Window, Vec<TimestampedValue<T>>)>,
)
    requires
        !(strategy is Session),
        plan::is_plan(plan, strategy, collection::times(elements)),
        plan::gathers_plan(elements, plan, result),
    ensures
        forall|i: int, j: int|
            0 <= i < j < result.len() ==> (#[trigger] result[i]).0.start < (
            #[trigger] result[j]).0.start,
        forall|i: int| 0 <= i < result.len() ==> (#[trigger] result[i]).1@.len() > 0,
{
    law_assigned_elements_keep_value_and_time(elements, strategy, plan, result);
    assert forall|i: int, j: int| 0 <= i < j < result.len() implies (#[trigger] result[i]).0.start
        < (#[trigger] result[j]).0.start by {
        assert(plan[i].0.start < plan[j].0.start);
    }
    assert forall|i: int| 0 <= i < result.len() implies (#[trigger] result[i]).1@.len() > 0 by {
        assert(plan[i].1.len() > 0);
    }
}

/// The elements of a window, where a condition on elements says which they are.
proof fn lemma_window_filter<T: Clone>(
    elements: Seq<TimestampedValue<T>>,
    strategy: WindowingStrategy,
    plan: Seq<(Window, Seq<int>)>,
    result: Seq<(Window, Vec<TimestampedValue<T>>)>,
    i: int,
    pred: spec_fn(TimestampedValue<T>) -> bool,
)
    requires
        !(strategy is Session),
        plan::is_plan(plan, strategy, collection::times(elements)),
        plan::gathers_plan(elements, plan, result),
        0 <= i < plan.len(),
        forall|k: int|
            0 <= k < elements.len() ==> pred(#[trigger] elements[k]) == strategy.covers(
                elements[k].timestamp.secs(),
                plan[i].0,
            ),
    ensures
        result[i].1@.len() == elements.filter(pred).len(),
        forall|j: int|
            0 <= j < elements.filter(pred).len() ==> cloned(
                elements.filter(pred)[j].value,
                (#[trigger] result[i].1@[j]).value,
            ) && result[i].1@[j].timestamp == elements.filter(pred)[j].timestamp,
{
    let times = collection::times(elements);
    let p = plan::covering(strategy, times);
    let w = plan[i].0;
    let f = |k: int| p(k, w);
    assert forall|k: int| 0 <= k < elements.len() implies #[trigger] f(k) == pred(elements[k]) by {
        assert(times[k] == elements[k].timestamp);
    }
    transformed::lemma_positions_filter(elements, f, pred);
    assert(plan[i].1 == plan::members(times.len(), p, w));
    assert(plan[i].1 =~= index::positions(elements.len(), f));
    assert(collection::gathers(elements, plan[i].1, result[i].1@));
    assert forall|j: int| 0 <= j < elements.filter(pred).len() implies cloned(
        elements.filter(pred)[j].value,
        (#[trigger] result[i].1@[j]).value,
    ) && result[i].1@[j].timestamp == elements.filter(pred)[j].timestamp by {
        let k = plan[i].1[j];
        assert(collection::clone_of(elements[k], result[i].1@[j]));
        assert(elements[index::positions(elements.len(), f)[j]] == elements.filter(pred)[j]);
    }
}

/// Fixed windows have the given size, start at multiples of it and do not
/// overlap, and the second of every element, here of element `k`, lies in one.
pub proof fn law_fixed_windows_are_laid_out<T: Clone>(
    elements: Seq<TimestampedValue<T>>,
    size: i64,
    plan: Seq<(Window, Seq<int>)>,
    result: Seq<(Window, Vec<TimestampedValue<T>>)>,
    k: int,
)
    requires
        size > 0,
        plan::assignable(
            (WindowingStrategy::Fixed { size_secs: size }),
            collection::times(elements),
        ),
        plan::is_plan(
            plan,
            (WindowingStrategy::Fixed { size_secs: size }),
            collection::times(elements),
        ),
        plan::gathers_plan(elements, plan, result),
    ensures
        forall|i: int|
            0 <= i < result.len() ==> (#[trigger] result[i]).0.end == result[i].0.start + size
                && result[i].0.start as int % size as int == 0,
        forall|i: int, j: int|
            0 <= i < j < result.len() ==> (#[trigger] result[i]).0.end <= (
            #[trigger] result[j]).0.start,
        0 <= k < elements.len() ==> exists|i: int|
            0 <= i < result.len() && (#[trigger] result[i]).0.start
                <= elements[k].timestamp.secs() < result[i].0.end,
{
    let times = collection::times(elements);
    let strategy = WindowingStrategy::Fixed { size_secs: size };
    law_assigned_elements_keep_value_and_time(elements, strategy, plan, result);
    windows::law_fixed_windows_tile(plan, size, times);
    assert forall|i: int| 0 <= i < result.len() implies (#[trigger] result[i]).0.end
        == result[i].0.start + size && result[i].0.start as int % size as int == 0 by {
        assert(plan[i].0.end == plan[i].0.start + size);
    }
    assert forall|i: int, j: int| 0 <= i < j < result.len() implies (#[trigger] result[i]).0.end
        <= (#[trigger] result[j]).0.start by {
        assert(plan[i].0.end <= plan[j].0.start);
    }
    if 0 <= k < elements.len() {
        assert(times[k] == elements[k].timestamp);
        windows::law_fixed_one_window(plan, size, times, k);
        let i = choose|i: int| 0 <= i < plan.len() && (#[trigger] plan[i]).1.contains(k);
        assert(plan[i].1.contains(k));
        assert(result[i].0 == plan[i].0);
    }
}

/// A fixed window holds copies of exactly the elements whose seconds lie in it,
/// in the order of the collection.
pub proof fn law_fixed_window_holds_its_elements<T: Clone>(
    elements: Seq<TimestampedValue<T>>,
    size: i64,
    plan: Seq<(Window, Seq<int>)>,
    result: Seq<(Window, Vec<TimestampedValue<T>>)>,
    i: int,
)
    requires
        size > 0,
        plan::is_plan(
            plan,
            (WindowingStrategy::Fixed { size_secs: size }),
            collection::times(elements),
        ),
        plan::gathers_plan(elements, plan, result),
        0 <= i < result.len(),
    ensures
        ({
            let inside = elements.filter(
                |e: TimestampedValue<T>|
                    result[i].0.start <= e.timestamp.secs() < result[i].0.end,
            );
            &&& result[i].1@.len() == inside.len()
            &&& forall|j: int|
                0 <= j < inside.len() ==> cloned(inside[j].value, (#[trigger] result[i].1@[j]).value)
                    && result[i].1@[j].timestamp == inside[j].timestamp
        }),
{
    let times = collection::times(elements);
    let strategy = WindowingStrategy::Fixed { size_secs: size };
    let pred = |e: TimestampedValue<T>|
        result[i].0.start <= e.timestamp.secs() < result[i].0.end;
    let w = plan[i].0;
    assert(result[i].0 == w);
    windows::law_fixed_windows_tile(plan, size, times);
    assert forall|k: int| 0 <= k < elements.len() implies pred(#[trigger] elements[k])
        == strategy.covers(elements[k].timestamp.secs(), w) by {
        windows::lemma_fixed_holds(elements[k].timestamp.secs(), size as int, w);
    }
    lemma_window_filter(elements, strategy, plan, result, i, pred);
}

/// Every element of a fixed window has the window that starts at the multiple of
/// the size at or below its second, whatever the sign of the size.
pub proof fn law_fixed_window_starts_at_a_multiple<T: Clone>(
    elements: Seq<TimestampedValue<T>>,
    size: i64,
    plan: Seq<(Window, Seq<int>)>,
    result: Seq<(Window, Vec<TimestampedValue<T>>)>,
    i: int,
    j: int,
)
    requires
        plan::is_plan(
            plan,
            (WindowingStrategy::Fixed { size_secs: size }),
            collection::times(elements),
        ),
        plan::gathers_plan(elements, plan, result),
        0 <= i < result.len(),
        0 <= j < result[i].1@.len(),
    ensures
        result[i].0.start == (result[i].1@[j].timestamp.secs() / (size as int)) * size,
        result[i].0.end == result[i].0.start + size,
{
    let strategy = WindowingStrategy::Fixed { size_secs: size };
    let times = collection::times(elements);
    law_assigned_elements_keep_value_and_time(elements, strategy, plan, result);
    assert(result[i].0 == plan[i].0);
    let k = plan[i].1[j];
    assert(plan[i].1.contains(k));
    assert(times[k] == result[i].1@[j].timestamp);
    windows::lemma_member(plan, times.len(), plan::covering(strategy, times), i, k);
}

/// The event times returned in a fixed window lie in it, unless they are NaNs or
/// beyond the range of `i64`.
pub proof fn law_fixed_window_holds_its_times<T: Clone>(
    elements: Seq<TimestampedValue<T>>,
    size: i64,
    plan: Seq<(Window, Seq<int>)>,
    result: Seq<(Window, Vec<TimestampedValue<T>>)>,
    i: int,
    j: int,
)
    requires
        size > 0,
        plan::is_plan(
            plan,
            (WindowingStrategy::Fixed { size_secs: size }),
            collection::times(elements),
        ),
        plan::gathers_plan(elements, plan, result),
        0 <= i < result.len(),
        0 <= j < result[i].1@.len(),
        !result[i].1@[j].timestamp.nan(),
        i64::MIN * timestamp::units_per_second() <= result[i].1@[j].timestamp.units()
            < 0x8000_0000_0000_0000 * timestamp::units_per_second(),
    ensures
        result[i].0.start * timestamp::units_per_second() <= result[i].1@[j].timestamp.units(),
        result[i].1@[j].timestamp.units() < result[i].0.end * timestamp::units_per_second(),
{
    let strategy = WindowingStrategy::Fixed { size_secs: size };
    let time = result[i].1@[j].timestamp;
    let second = timestamp::units_per_second() as int;
    law_assigned_elements_keep_value_and_time(elements, strategy, plan, result);
    windows::law_fixed_windows_tile(plan, size, collection::times(elements));
    let k = plan[i].1[j];
    assert(plan[i].1.contains(k));
    assert(collection::times(elements)[k] == time);
    values::law_seconds_are_the_floor(time);
    lemma_pow2_pos(1074);
    lemma_mul_inequality(result[i].0.start as int, time.secs(), second);
    lemma_mul_inequality(time.secs() + 1, result[i].0.end as int, second);
}

/// Where every element is in exactly one window, the positions of all windows
/// are those of the collection, each once.
proof fn lemma_flat_rearranges(
    plan: Seq<(Window, Seq<int>)>,
    strategy: WindowingStrategy,
    times: Seq<Timestamp>,
)
    requires
        !(strategy is Sliding),
        plan::assignable(strategy, times),
        plan::is_plan(plan, strategy, times),
    ensures
        rearranging::rearranges(plan::all_positions(plan), times.len()),
{
    let all = plan::all_positions(plan);
    assert forall|a: int| 0 <= a < all.len() implies 0 <= #[trigger] all[a] < times.len() by {
        let i = sessions::lemma_flat_place(plan, a);
        let j = a - sessions::offset(plan, i);
        let at = plan::lemma_flat_index(plan, i, j);
        plans::lemma_listed_once(plan, strategy, times, i);
        assert(plan[i].1.contains(plan[i].1[j]));
    }
    assert forall|x: int| 0 <= x < times.len() implies #[trigger] all.contains(x) by {
        sessions::lemma_flat_contains(plan, x);
        lemma_one_window(plan, strategy, times, x);
    }
    assert(all.no_duplicates()) by {
        assert forall|a: int, b: int|
            0 <= a < all.len() && 0 <= b < all.len() && a != b implies all[a] != all[b] by {
            if all[a] == all[b] {
                let i = sessions::lemma_flat_place(plan, a);
                let j = sessions::lemma_flat_place(plan, b);
                let (x, y) = (a - sessions::offset(plan, i), b - sessions::offset(plan, j));
                let u = plan::lemma_flat_index(plan, i, x);
                let v = plan::lemma_flat_index(plan, j, y);
                let k = all[a];
                assert(plan[i].1[x] == k && plan[j].1[y] == k);
                assert(plan[i].1.contains(k) && plan[j].1.contains(k));
                plans::lemma_listed_once(plan, strategy, times, i);
                lemma_one_window(plan, strategy, times, k);
            }
        }
    }
    rearranging::lemma_rearranges(all, times.len());
}

/// Window after window, exact copies are the elements at the positions of the
/// plan.
proof fn lemma_flat_result<T: Clone>(
    elements: Seq<TimestampedValue<T>>,
    plan: Seq<(Window, Seq<int>)>,
    result: Seq<(Window, Vec<TimestampedValue<T>>)>,
)
    requires
        collection::exact_clones::<T>(),
        plan::gathers_plan(elements, plan, result),
    ensures
        result.map_values(|entry: (Window, Vec<TimestampedValue<T>>)| entry.1@).flatten()
            == rearranging::picked(elements, plan::all_positions(plan)),
    decreases plan.len(),
{
    let f = |entry: (Window, Vec<TimestampedValue<T>>)| entry.1@;
    if plan.len() == 0 {
        assert(result.map_values(f) =~= Seq::empty());
        assert(plan.map_values(|entry: (Window, Seq<int>)| entry.1) =~= Seq::empty());
        assert(rearranging::picked(elements, plan::all_positions(plan)) =~= Seq::empty());
    } else {
        let (rest, last) = (plan.drop_last(), plan.last());
        let (some, end) = (result.drop_last(), result.last());
        assert forall|i: int|
            #![trigger some[i]]
            #![trigger rest[i]]
            0 <= i < rest.len() implies some[i].0 == rest[i].0 && collection::gathers(
            elements,
            rest[i].1,
            some[i].1@,
        ) by {
            assert(some[i] == result[i] && rest[i] == plan[i]);
        }
        lemma_flat_result(elements, rest, some);
        plan::lemma_all_positions_push(rest, last);
        assert(rest.push(last) =~= plan);
        some.map_values(f).lemma_flatten_push(end.1@);
        assert(some.map_values(f).push(end.1@) =~= result.map_values(f));
        assert(result[plan.len() - 1] == end && plan[plan.len() - 1] == last);
        assert(collection::gathers(elements, last.1, end.1@));
        assert(end.1@ =~= rearranging::picked(elements, last.1)) by {
            assert forall|j: int| 0 <= j < last.1.len() implies end.1@[j]
                == elements[last.1[j]] by {
                assert(collection::clone_of(elements[last.1[j]], end.1@[j]));
            }
        }
        assert(rearranging::picked(elements, plan::all_positions(rest) + last.1)
            =~= rearranging::picked(elements, plan::all_positions(rest)) + rearranging::picked(
            elements,
            last.1,
        ));
    }
}

/// Fixed windows and sessions divide the collection: where clones are exact,
/// what they hold, taken together, are its elements up to order.
pub proof fn law_windows_divide_the_collection<T: Clone>(
    elements: Seq<TimestampedValue<T>>,
    strategy: WindowingStrategy,
    plan: Seq<(Window, Seq<int>)>,
    result: Seq<(Window, Vec<TimestampedValue<T>>)>,
)
    requires
        collection::exact_clones::<T>(),
        !(strategy is Sliding),
        plan::assignable(strategy, collection::times(elements)),
        plan::is_plan(plan, strategy, collection::times(elements)),
        plan::gathers_plan(elements, plan, result),
    ensures
        result.map_values(
            |entry: (Window, Vec<TimestampedValue<T>>)| entry.1@,
        ).flatten().to_multiset() == elements.to_multiset(),
{
    let times = collection::times(elements);
    lemma_flat_rearranges(plan, strategy, times);
    lemma_flat_result(elements, plan, result);
    rearranging::lemma_rearranged(elements, plan::all_positions(plan));
}

proof fn lemma_one_window(
    plan: Seq<(Window, Seq<int>)>,
    strategy: WindowingStrategy,
    times: Seq<Timestamp>,
    k: int,
)
    requires
        !(strategy is Sliding),
        plan::assignable(strategy, times),
        plan::is_plan(plan, strategy, times),
        0 <= k < times.len(),
    ensures
        exists|i: int| 0 <= i < plan.len() && (#[trigger] plan[i]).1.contains(k),
        forall|i: int, j: int|
            0 <= i < plan.len() && 0 <= j < plan.len() && (#[trigger] plan[i]).1.contains(k) && (
            #[trigger] plan[j]).1.contains(k) ==> i == j,
{
    match strategy {
        WindowingStrategy::Fixed { size_secs } => {
            windows::law_fixed_one_window(plan, size_secs, times, k);
        },
        WindowingStrategy::Session { gap_secs } => {
            sessions::law_session_one_window(plan, gap_secs, times, k);
        },
        _ => {},
    }
}

/// A sliding window that ends at a multiple of the slide holds copies of exactly
/// the elements whose seconds lie in it, in the order of the collection. Any
/// other holds those that have no further window but it: their seconds come
/// early enough after a multiple of the slide, and it is the window that holds
/// them when windows are laid end to end from there.
pub proof fn law_sliding_window_holds_its_elements<T: Clone>(
    elements: Seq<TimestampedValue<T>>,
    size: i64,
    slide: i64,
    plan: Seq<(Window, Seq<int>)>,
    result: Seq<(Window, Vec<TimestampedValue<T>>)>,
    i: int,
)
    requires
        size > 0,
        slide > 0,
        plan::is_plan(
            plan,
            (WindowingStrategy::Sliding { size_secs: size, slide_secs: slide }),
            collection::times(elements),
        ),
        plan::gathers_plan(elements, plan, result),
        0 <= i < result.len(),
    ensures
        result[i].0.end == result[i].0.start + size,
        ({
            let w = result[i].0;
            let inside = if w.end as int % slide as int == 0 {
                elements.filter(
                    |e: TimestampedValue<T>|
                        result[i].0.start <= e.timestamp.secs() < result[i].0.end,
                )
            } else {
                elements.filter(
                    |e: TimestampedValue<T>|
                        e.timestamp.secs() % (slide as int) + (size as int % slide as int)
                            < slide && result[i].0.start == e.timestamp.secs()
                            - e.timestamp.secs() % (slide as int) % (size as int),
                )
            };
            &&& result[i].1@.len() == inside.len()
            &&& forall|j: int|
                0 <= j < inside.len() ==> cloned(inside[j].value, (#[trigger] result[i].1@[j]).value)
                    && result[i].1@[j].timestamp == inside[j].timestamp
        }),
{
    let times = collection::times(elements);
    let strategy = WindowingStrategy::Sliding { size_secs: size, slide_secs: slide };
    let (m, d) = (size as int, slide as int);
    let w = plan[i].0;
    assert(result[i].0 == w);
    windows::law_sliding_windows_hold(plan, size, slide, times);
    assert(w.end == w.start + size);
    if w.end as int % d == 0 {
        let pred = |e: TimestampedValue<T>|
            result[i].0.start <= e.timestamp.secs() < result[i].0.end;
        assert forall|k: int| 0 <= k < elements.len() implies pred(#[trigger] elements[k])
            == strategy.covers(elements[k].timestamp.secs(), w) by {
            plan::lemma_further_start(elements[k].timestamp.secs(), m, d);
        }
        lemma_window_filter(elements, strategy, plan, result, i, pred);
    } else {
        let pred = |e: TimestampedValue<T>|
            e.timestamp.secs() % (slide as int) + (size as int % slide as int) < slide
                && result[i].0.start == e.timestamp.secs() - e.timestamp.secs() % (slide as int) % (
            size as int);
        let x = plans::lemma_listed_windows(
            plan,
            times.len(),
            plan::covering(strategy, times),
            i,
        );
        plan::lemma_further_start(times[x].secs(), m, d);
        assert(m % d != 0);
        assert forall|k: int| 0 <= k < elements.len() implies pred(#[trigger] elements[k])
            == strategy.covers(elements[k].timestamp.secs(), w) by {
            plan::lemma_further_start(elements[k].timestamp.secs(), m, d);
        }
        lemma_window_filter(elements, strategy, plan, result, i, pred);
    }
}

/// There are no sliding windows without extent.
pub proof fn law_sliding_windows_have_extent<T: Clone>(
    elements: Seq<TimestampedValue<T>>,
    size: i64,
    slide: i64,
    plan: Seq<(Window, Seq<int>)>,
    result: Seq<(Window, Vec<TimestampedValue<T>>)>,
)
    requires
        size <= 0,
        plan::is_plan(
            plan,
            (WindowingStrategy::Sliding { size_secs: size, slide_secs: slide }),
            collection::times(elements),
        ),
        plan::gathers_plan(elements, plan, result),
    ensures
        result.len() == 0,
{
    let times = collection::times(elements);
    let strategy = WindowingStrategy::Sliding { size_secs: size, slide_secs: slide };
    if plan.len() > 0 {
        let k = plans::lemma_listed_windows(
            plan,
            times.len(),
            plan::covering(strategy, times),
            0,
        );
    }
}

/// No sliding window of an element is missing: each that holds its second and
/// ends at a multiple of the slide is there and, where the second comes early
/// enough after a multiple of the slide, the further one.
pub proof fn law_sliding_windows_are_all_there<T: Clone>(
    elements: Seq<TimestampedValue<T>>,
    size: i64,
    slide: i64,
    plan: Seq<(Window, Seq<int>)>,
    result: Seq<(Window, Vec<TimestampedValue<T>>)>,
    k: int,
    end: int,
)
    requires
        size > 0,
        slide > 0,
        plan::assignable(
            (WindowingStrategy::Sliding { size_secs: size, slide_secs: slide }),
            collection::times(elements),
        ),
        plan::is_plan(
            plan,
            (WindowingStrategy::Sliding { size_secs: size, slide_secs: slide }),
            collection::times(elements),
        ),
        plan::gathers_plan(elements, plan, result),
        0 <= k < elements.len(),
    ensures
        elements[k].timestamp.secs() < end <= elements[k].timestamp.secs() + size && end
            % slide as int == 0 ==> exists|i: int|
            0 <= i < result.len() && (#[trigger] result[i]).0.start == end - size
                && result[i].0.end == end,
        size as int % slide as int != 0 && elements[k].timestamp.secs() % (slide as int)
            + (size as int % slide as int) < slide ==> exists|i: int|
            0 <= i < result.len() && (#[trigger] result[i]).0.start == elements[k].timestamp.secs()
                - elements[k].timestamp.secs() % (slide as int) % (size as int)
                && result[i].0.end == result[i].0.start + size,
{
    let times = collection::times(elements);
    let strategy = WindowingStrategy::Sliding { size_secs: size, slide_secs: slide };
    let (m, d) = (size as int, slide as int);
    let secs = elements[k].timestamp.secs();
    assert(times[k].secs() == secs);
    assert(plan::fits_one(strategy, secs));
    plan::lemma_further_start(secs, m, d);
    if secs < end <= secs + size && end % d == 0 {
        lemma_sliding_listed(plan, size, slide, times, k, end - m);
        let i = choose|i: int|
            0 <= i < plan.len() && (#[trigger] plan[i]).0.start == end - m && plan[i].0.end == end
                - m + m;
        assert(result[i].0 == plan[i].0);
    }
    if m % d != 0 && secs % d + m % d < d {
        let start = secs - secs % d % m;
        lemma_sliding_listed(plan, size, slide, times, k, start);
        let i = choose|i: int|
            0 <= i < plan.len() && (#[trigger] plan[i]).0.start == start && plan[i].0.end == start
                + m;
        assert(result[i].0 == plan[i].0);
    }
}

proof fn lemma_sliding_listed(
    plan: Seq<(Window, Seq<int>)>,
    size: i64,
    slide: i64,
    times: Seq<Timestamp>,
    k: int,
    start: int,
)
    requires
        size > 0,
        slide > 0,
        plan::assignable(
            (WindowingStrategy::Sliding { size_secs: size, slide_secs: slide }),
            times,
        ),
        plan::is_plan(
            plan,
            (WindowingStrategy::Sliding { size_secs: size, slide_secs: slide }),
            times,
        ),
        0 <= k < times.len(),
        plan::sliding_start(times[k].secs(), size as int, slide as int, start),
    ensures
        exists|i: int|
            0 <= i < plan.len() && (#[trigger] plan[i]).0.start == start && plan[i].0.end == start
                + size,
{
    let strategy = WindowingStrategy::Sliding { size_secs: size, slide_secs: slide };
    let p = plan::covering(strategy, times);
    assert(plan::fits_one(strategy, times[k].secs()));
    plan::lemma_further_start(times[k].secs(), size as int, slide as int);
    windows::lemma_seconds_in_range(times[k]);
    let w = Window { start: start as i64, end: (start + size) as i64 };
    assert(p(k, w));
    assert(plan::has_window(plan, w));
}

/// A session reaches from the second of its first element to `gap` seconds after
/// that of its last.
pub proof fn law_session_window_spans<T: Clone>(
    elements: Seq<TimestampedValue<T>>,
    gap: i64,
    plan: Seq<(Window, Seq<int>)>,
    result: Seq<(Window, Vec<TimestampedValue<T>>)>,
    i: int,
)
    requires
        plan::is_plan(
            plan,
            (WindowingStrategy::Session { gap_secs: gap }),
            collection::times(elements),
        ),
        plan::gathers_plan(elements, plan, result),
        0 <= i < result.len(),
    ensures
        result[i].1@.len() > 0,
        result[i].0.start == result[i].1@[0].timestamp.secs(),
        result[i].0.end == result[i].1@[result[i].1@.len() - 1].timestamp.secs() + gap,
{
    let times = collection::times(elements);
    law_assigned_elements_keep_value_and_time(
        elements,
        (WindowingStrategy::Session { gap_secs: gap }),
        plan,
        result,
    );
    assert(plan::spans(times, gap as int, plan[i]));
    assert(result[i].1@.len() == plan[i].1.len());
    let last = plan[i].1.len() - 1;
    assert(0 <= plan[i].1[0] < elements.len() && 0 <= plan[i].1[last] < elements.len());
}

/// Within a session each element is at most `gap` seconds after the one before
/// it. Next to a NaN its second is less than `gap` later.
pub proof fn law_session_neighbours_are_close<T: Clone>(
    elements: Seq<TimestampedValue<T>>,
    gap: i64,
    plan: Seq<(Window, Seq<int>)>,
    result: Seq<(Window, Vec<TimestampedValue<T>>)>,
    i: int,
    a: int,
)
    requires
        plan::is_plan(
            plan,
            (WindowingStrategy::Session { gap_secs: gap }),
            collection::times(elements),
        ),
        plan::gathers_plan(elements, plan, result),
        0 <= i < result.len(),
        0 < a < result[i].1@.len(),
    ensures
        ({
            let (before, after) = (result[i].1@[a - 1].timestamp, result[i].1@[a].timestamp);
            &&& !before.nan() && !after.nan() ==> after.units() - before.units() <= gap
                * timestamp::units_per_second()
            &&& before.nan() || after.nan() ==> after.secs() < before.secs() + gap
            &&& before.rank() <= after.rank()
        }),
{
    let times = collection::times(elements);
    law_assigned_elements_keep_value_and_time(
        elements,
        (WindowingStrategy::Session { gap_secs: gap }),
        plan,
        result,
    );
    assert(result[i].1@.len() == plan[i].1.len());
    let list = plan[i].1;
    let (x, y) = (list[a - 1], list[a]);
    assert(0 <= plan[i].1[a - 1] < elements.len() && 0 <= plan[i].1[a] < elements.len());
    assert(plan::is_run(times, gap as int, plan[i].1));
    assert(plan::continues(times, gap as int, x, y));
    let u = plan::lemma_flat_index(plan, i, a - 1);
    let v = plan::lemma_flat_index(plan, i, a);
    assert(order::earlier(times, plan::all_positions(plan)[u], plan::all_positions(plan)[v]));
}

/// A session ends only where the next element is more than `gap` seconds after
/// its last one. Next to a NaN its second is at least `gap` later.
pub proof fn law_sessions_break_at_gaps<T: Clone>(
    elements: Seq<TimestampedValue<T>>,
    gap: i64,
    plan: Seq<(Window, Seq<int>)>,
    result: Seq<(Window, Vec<TimestampedValue<T>>)>,
    i: int,
)
    requires
        plan::is_plan(
            plan,
            (WindowingStrategy::Session { gap_secs: gap }),
            collection::times(elements),
        ),
        plan::gathers_plan(elements, plan, result),
        0 < i < result.len(),
    ensures
        result[i - 1].1@.len() > 0,
        result[i].1@.len() > 0,
        ({
            let before = result[i - 1].1@[result[i - 1].1@.len() - 1].timestamp;
            let after = result[i].1@[0].timestamp;
            &&& !before.nan() && !after.nan() ==> after.units() - before.units() > gap
                * timestamp::units_per_second()
            &&& before.nan() || after.nan() ==> after.secs() >= before.secs() + gap
            &&& before.rank() <= after.rank()
        }),
{
    let times = collection::times(elements);
    law_assigned_elements_keep_value_and_time(
        elements,
        (WindowingStrategy::Session { gap_secs: gap }),
        plan,
        result,
    );
    let h = i - 1;
    assert(plan::spans(times, gap as int, plan[h]) && plan::spans(times, gap as int, plan[i]));
    assert(result[h].1@.len() == plan[h].1.len() && result[i].1@.len() == plan[i].1.len());
    let last = plan[h].1.len() - 1;
    assert(0 <= plan[h].1[last] < elements.len() && 0 <= plan[i].1[0] < elements.len());
    assert(!plan::continues(times, gap as int, plan[h].1.last(), plan[i].1.first()));
    let u = plan::lemma_flat_index(plan, h, last);
    let v = plan::lemma_flat_index(plan, i, 0);
    sessions::lemma_flat_offsets(plan, h, i);
    assert(order::earlier(times, plan::all_positions(plan)[u], plan::all_positions(plan)[v]));
}

/// Elements at the same time keep their order in a session.
pub proof fn law_session_keeps_order_of_ties(
    plan: Seq<(Window, Seq<int>)>,
    gap: i64,
    times: Seq<Timestamp>,
    i: int,
    a: int,
    b: int,
)
    requires
        plan::is_plan(plan, (WindowingStrategy::Session { gap_secs: gap }), times),
        0 <= i < plan.len(),
        0 <= a < b < plan[i].1.len(),
        times[plan[i].1[a]] == times[plan[i].1[b]],
    ensures
        plan[i].1[a] < plan[i].1[b],
{
    let u = plan::lemma_flat_index(plan, i, a);
    let v = plan::lemma_flat_index(plan, i, b);
    assert(order::earlier(times, plan::all_positions(plan)[u], plan::all_positions(plan)[v]));
}

/// Fixed windows can divide every collection for each of whose elements the size
/// is not 0 and the window that starts at the multiple of the size at or below
/// its second lies within `i64`.
pub proof fn law_fixed_windows_can_be_assigned<T>(elements: Seq<TimestampedValue<T>>, size: i64)
    requires
        forall|k: int|
            0 <= k < elements.len() ==> size != 0 && i64::MIN <= ((
            #[trigger] elements[k]).timestamp.secs() / (size as int)) * size && i64::MIN <= (
            elements[k].timestamp.secs() / (size as int)) * size + size && (
            elements[k].timestamp.secs() / (size as int)) * size + size <= i64::MAX,
    ensures
        plan::assignable(
            (WindowingStrategy::Fixed { size_secs: size }),
            collection::times(elements),
        ),
{
    let times = collection::times(elements);
    let strategy = WindowingStrategy::Fixed { size_secs: size };
    assert forall|k: int| 0 <= k < times.len() implies plan::fits_one(
        strategy,
        (#[trigger] times[k]).secs(),
    ) by {
        assert(times[k] == elements[k].timestamp);
    }
}

/// Fixed windows can divide no other collection.
pub proof fn law_fixed_windows_need_room<T>(
    elements: Seq<TimestampedValue<T>>,
    size: i64,
    k: int,
)
    requires
        plan::assignable(
            (WindowingStrategy::Fixed { size_secs: size }),
            collection::times(elements),
        ),
        0 <= k < elements.len(),
    ensures
        size != 0,
        i64::MIN <= (elements[k].timestamp.secs() / (size as int)) * size,
        i64::MIN <= (elements[k].timestamp.secs() / (size as int)) * size + size,
        (elements[k].timestamp.secs() / (size as int)) * size + size <= i64::MAX,
{
    let times = collection::times(elements);
    assert(times[k] == elements[k].timestamp);
    assert(plan::fits_one((WindowingStrategy::Fixed { size_secs: size }), times[k].secs()));
}

/// Sliding windows can divide a collection whose seconds are further from the
/// ends of `i64` than the size; they cannot where the slide is 0, nor where the
/// size is positive and the slide negative.
pub proof fn law_sliding_windows_can_be_assigned<T>(
    elements: Seq<TimestampedValue<T>>,
    size: i64,
    slide: i64,
)
    ensures
        slide > 0 && (forall|k: int|
            0 <= k < elements.len() ==> i64::MIN <= (#[trigger] elements[k]).timestamp.secs() - size
                && elements[k].timestamp.secs() + size <= i64::MAX) ==> plan::assignable(
            (WindowingStrategy::Sliding { size_secs: size, slide_secs: slide }),
            collection::times(elements),
        ),
        slide != 0 && size <= 0 ==> plan::assignable(
            (WindowingStrategy::Sliding { size_secs: size, slide_secs: slide }),
            collection::times(elements),
        ),
        elements.len() > 0 && (slide == 0 || size > 0 && slide < 0) ==> !plan::assignable(
            (WindowingStrategy::Sliding { size_secs: size, slide_secs: slide }),
            collection::times(elements),
        ),
{
    let times = collection::times(elements);
    let strategy = WindowingStrategy::Sliding { size_secs: size, slide_secs: slide };
    let (m, d) = (size as int, slide as int);
    if slide > 0 && size > 0 && (forall|k: int|
        0 <= k < elements.len() ==> i64::MIN <= (#[trigger] elements[k]).timestamp.secs() - size
            && elements[k].timestamp.secs() + size <= i64::MAX) {
        assert forall|k: int| 0 <= k < times.len() implies plan::fits_one(
            strategy,
            (#[trigger] times[k]).secs(),
        ) by {
            assert(times[k] == elements[k].timestamp);
            plan::lemma_further_start(times[k].secs(), m, d);
        }
    }
    if elements.len() > 0 && (slide == 0 || size > 0 && slide < 0) {
        assert(!plan::fits_one(strategy, times[0].secs()));
    }
}

/// Sliding windows that end at multiples of the slide need room within `i64`.
pub proof fn law_sliding_windows_need_room<T>(
    elements: Seq<TimestampedValue<T>>,
    size: i64,
    slide: i64,
    k: int,
    end: int,
)
    requires
        plan::assignable(
            (WindowingStrategy::Sliding { size_secs: size, slide_secs: slide }),
            collection::times(elements),
        ),
        0 <= k < elements.len(),
        elements[k].timestamp.secs() < end <= elements[k].timestamp.secs() + size,
        end % slide as int == 0,
    ensures
        i64::MIN <= end - size,
        end <= i64::MAX,
{
    let times = collection::times(elements);
    let secs = elements[k].timestamp.secs();
    assert(times[k].secs() == secs);
    assert(plan::fits_one(
        (WindowingStrategy::Sliding { size_secs: size, slide_secs: slide }),
        times[k].secs(),
    ));
    assert(plan::sliding_start(secs, size as int, slide as int, end - size));
}

/// Which collections sessions can divide: for every element, `gap` seconds after
/// its second lie within `i64`.
pub proof fn law_sessions_can_be_assigned<T>(elements: Seq<TimestampedValue<T>>, gap: i64)
    ensures
        plan::assignable(
            (WindowingStrategy::Session { gap_secs: gap }),
            collection::times(elements),
        ) <==> forall|k: int|
            0 <= k < elements.len() ==> i64::MIN <= (#[trigger] elements[k]).timestamp.secs() + gap
                <= i64::MAX,
{
    let times = collection::times(elements);
    let strategy = WindowingStrategy::Session { gap_secs: gap };
    if plan::assignable(strategy, times) {
        assert forall|k: int| 0 <= k < elements.len() implies i64::MIN <= (
        #[trigger] elements[k]).timestamp.secs() + gap <= i64::MAX by {
            assert(plan::fits_one(strategy, times[k].secs()));
        }
    }
    if forall|k: int|
        0 <= k < elements.len() ==> i64::MIN <= (#[trigger] elements[k]).timestamp.secs() + gap
            <= i64::MAX {
        assert forall|k: int| 0 <= k < times.len() implies plan::fits_one(
            strategy,
            (#[trigger] times[k]).secs(),
        ) by {
            assert(times[k] == elements[k].timestamp);
        }
    }
}

} // verus!
