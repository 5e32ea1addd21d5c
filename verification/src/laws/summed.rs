use vstd::prelude::*;
use vstd::utf8::*;

use crate::collection;
use crate::collection::TimestampedValue;
use crate::index;
use crate::laws::sums;
use crate::laws::windows;
use crate::plan;
use crate::runner;
use crate::totals;
use crate::window::{Window, WindowingStrategy};

verus! {

/// The total of a key over records at listed positions, as a fold over the list.
proof fn lemma_total_is_fold(
    elements: Seq<TimestampedValue<(String, i64)>>,
    list: Seq<int>,
    key: Seq<char>,
    f: spec_fn(int, int) -> int,
)
    requires
        forall|sum: int, k: int| #[trigger]
            f(sum, k) == if elements[k].value.0@ == key {
                sum + elements[k].value.1
            } else {
                sum
            },
    ensures
        totals::key_total(runner::records(elements, list), key) == list.fold_left(0int, f),
    decreases list.len(),
{
    let all = runner::records(elements, list);
    if list.len() > 0 {
        lemma_total_is_fold(elements, list.drop_last(), key, f);
        assert(all.drop_last() =~= runner::records(elements, list.drop_last()));
        let k = list.last();
        assert(all.last() == (elements[k].value.0@, elements[k].value.1 as int));
    }
}

/// An emitted sum is that of the values of exactly those elements of its window
/// that have the key, whatever its sign.
pub proof fn law_emitted_sums_add_up_values(
    elements: Seq<TimestampedValue<(String, i64)>>,
    plan: Seq<(Window, Seq<int>)>,
    results: Seq<(Window, Vec<(String, i64)>)>,
    i: int,
    j: int,
)
    requires
        runner::sums_plan(elements, plan, results),
        0 <= i < results.len(),
        0 <= j < results[i].1@.len(),
    ensures
        results[i].0 == plan[i].0,
        results[i].1@[j].1 == plan[i].1.fold_left(
            0int,
            |sum: int, k: int|
                if elements[k].value.0@ == results[i].1@[j].0@ {
                    sum + elements[k].value.1
                } else {
                    sum
                },
        ),
{
    let f = |sum: int, k: int|
        if elements[k].value.0@ == results[i].1@[j].0@ {
            sum + elements[k].value.1
        } else {
            sum
        };
    let list = plan[i].1;
    let t = totals::as_totals(results[i].1@);
    assert(totals::is_totals(t, runner::records(elements, list)));
    assert(t[j] == (results[i].1@[j].0@, results[i].1@[j].1 as int));
    lemma_total_is_fold(elements, list, results[i].1@[j].0@, f);
}

/// A window is emitted with the keys of its elements and no others.
pub proof fn law_emitted_keys_are_those_of_the_window(
    elements: Seq<TimestampedValue<(String, i64)>>,
    plan: Seq<(Window, Seq<int>)>,
    results: Seq<(Window, Vec<(String, i64)>)>,
    i: int,
    key: Seq<char>,
)
    requires
        runner::sums_plan(elements, plan, results),
        0 <= i < results.len(),
    ensures
        results.len() == plan.len(),
        (exists|j: int| 0 <= j < results[i].1@.len() && (#[trigger] results[i].1@[j]).0@ == key)
            <==> (exists|a: int|
            0 <= a < plan[i].1.len() && elements[#[trigger] plan[i].1[a]].value.0@ == key),
{
    let list = plan[i].1;
    let all = runner::records(elements, list);
    let t = totals::as_totals(results[i].1@);
    assert(totals::is_totals(t, all));
    if exists|j: int| 0 <= j < results[i].1@.len() && (#[trigger] results[i].1@[j]).0@ == key {
        let j = choose|j: int|
            0 <= j < results[i].1@.len() && (#[trigger] results[i].1@[j]).0@ == key;
        assert(t[j].0 == key);
        assert(totals::has_key(all, t[j].0));
        let a = choose|a: int| 0 <= a < all.len() && (#[trigger] all[a]).0 == key;
        assert(elements[plan[i].1[a]].value.0@ == key);
    }
    if exists|a: int| 0 <= a < plan[i].1.len() && elements[#[trigger] plan[i].1[a]].value.0@
        == key {
        let a = choose|a: int|
            0 <= a < plan[i].1.len() && elements[#[trigger] plan[i].1[a]].value.0@ == key;
        assert(all[a].0 == key);
        assert(totals::has_key(t, all[a].0));
        let j = choose|j: int| 0 <= j < t.len() && (#[trigger] t[j]).0 == key;
        assert(results[i].1@[j].0@ == key);
    }
}

/// The keys of a window are emitted in the order of their bytes: two of them
/// agree up to a place where the first ends or has the smaller byte.
pub proof fn law_emitted_keys_are_in_order(
    elements: Seq<TimestampedValue<(String, i64)>>,
    plan: Seq<(Window, Seq<int>)>,
    results: Seq<(Window, Vec<(String, i64)>)>,
    i: int,
    a: int,
    b: int,
)
    requires
        runner::sums_plan(elements, plan, results),
        0 <= i < results.len(),
        0 <= a < b < results[i].1@.len(),
    ensures
        ({
            let x = encode_utf8(results[i].1@[a].0@);
            let y = encode_utf8(results[i].1@[b].0@);
            exists|n: int|
                {
                    &&& 0 <= n <= x.len()
                    &&& n < y.len()
                    &&& #[trigger] x.take(n) == y.take(n)
                    &&& n == x.len() || x[n] < y[n]
                }
        }),
{
    let t = totals::as_totals(results[i].1@);
    assert(totals::is_totals(t, runner::records(elements, plan[i].1)));
    assert(t[a].0 == results[i].1@[a].0@ && t[b].0 == results[i].1@[b].0@);
    assert(totals::key_before(t[a].0, t[b].0));
    let x = encode_utf8(results[i].1@[a].0@);
    let y = encode_utf8(results[i].1@[b].0@);
    let n = choose|n: int| totals::smaller_at(x, y, n);
    assert(x.take(n) =~= y.take(n));
}

/// The fold over the positions that satisfy a condition, as a fold over all
/// elements.
proof fn lemma_positions_fold(
    elements: Seq<TimestampedValue<(String, i64)>>,
    n: nat,
    p: spec_fn(int) -> bool,
    f: spec_fn(int, int) -> int,
    g: spec_fn(int, TimestampedValue<(String, i64)>) -> int,
)
    requires
        n <= elements.len(),
        forall|sum: int, k: int|
            0 <= k < elements.len() ==> #[trigger] g(sum, elements[k]) == if p(k) {
                f(sum, k)
            } else {
                sum
            },
    ensures
        index::positions(n, p).fold_left(0int, f) == elements.take(n as int).fold_left(0int, g),
    decreases n,
{
    if n > 0 {
        let rest = (n - 1) as nat;
        lemma_positions_fold(elements, rest, p, f, g);
        let sum = index::positions(rest, p).fold_left(0int, f);
        assert(elements.take(n as int).drop_last() =~= elements.take(n - 1));
        assert(elements.take(n as int).last() == elements[n - 1]);
        assert(g(sum, elements[n - 1]) == if p(n - 1) {
            f(sum, n - 1)
        } else {
            sum
        });
        if p(n - 1) {
            assert(index::positions(n, p).drop_last() =~= index::positions(rest, p));
        }
    }
}

/// With fixed windows an emitted sum is that of the values of all elements of
/// the collection that have the key and a second in the window.
pub proof fn law_fixed_sums_add_up_the_collection(
    elements: Seq<TimestampedValue<(String, i64)>>,
    size: i64,
    plan: Seq<(Window, Seq<int>)>,
    results: Seq<(Window, Vec<(String, i64)>)>,
    i: int,
    j: int,
)
    requires
        size > 0,
        plan::is_plan(
            plan,
            (WindowingStrategy::Fixed { size_secs: size }),
            collection::times(elements),
        ),
        runner::sums_plan(elements, plan, results),
        0 <= i < results.len(),
        0 <= j < results[i].1@.len(),
    ensures
        results[i].1@[j].1 == elements.fold_left(
            0int,
            |sum: int, e: TimestampedValue<(String, i64)>|
                if e.value.0@ == results[i].1@[j].0@ && results[i].0.start <= e.timestamp.secs()
                    && e.timestamp.secs() < results[i].0.end {
                    sum + e.value.1
                } else {
                    sum
                },
        ),
{
    let times = collection::times(elements);
    let strategy = WindowingStrategy::Fixed { size_secs: size };
    let key = results[i].1@[j].0@;
    let cover = plan::covering(strategy, times);
    let w = plan[i].0;
    let p = |k: int| cover(k, w);
    let f = |sum: int, k: int|
        if elements[k].value.0@ == results[i].1@[j].0@ {
            sum + elements[k].value.1
        } else {
            sum
        };
    let g = |sum: int, e: TimestampedValue<(String, i64)>|
        if e.value.0@ == results[i].1@[j].0@ && results[i].0.start <= e.timestamp.secs()
            && e.timestamp.secs() < results[i].0.end {
            sum + e.value.1
        } else {
            sum
        };
    law_emitted_sums_add_up_values(elements, plan, results, i, j);
    windows::law_fixed_windows_tile(plan, size, times);
    assert forall|sum: int, k: int| 0 <= k < elements.len() implies #[trigger] g(sum, elements[k])
        == if p(k) {
        f(sum, k)
    } else {
        sum
    } by {
        assert(times[k] == elements[k].timestamp);
        windows::lemma_fixed_holds(times[k].secs(), size as int, w);
    }
    assert(plan[i].1 == plan::members(times.len(), cover, w));
    assert(plan[i].1 =~= index::positions(elements.len(), p));
    lemma_positions_fold(elements, elements.len(), p, f, g);
    assert(elements.take(elements.len() as int) =~= elements);
}

/// The sum of a key among totals, none of whose keys occurs twice.
proof fn lemma_emitted_fold(
    list: Seq<(String, i64)>,
    records: Seq<(Seq<char>, int)>,
    key: Seq<char>,
    f: spec_fn(int, (String, i64)) -> int,
)
    requires
        totals::is_totals(totals::as_totals(list), records),
        forall|sum: int, e: (String, i64)| #[trigger]
            f(sum, e) == if e.0@ == key {
                sum + e.1
            } else {
                sum
            },
    ensures
        list.fold_left(0int, f) == totals::key_total(records, key),
{
    let t = totals::as_totals(list);
    assert forall|a: int, b: int| 0 <= a < b < list.len() implies (#[trigger] list[a]).0@ != (
    #[trigger] list[b]).0@ by {
        assert(t[a].0 == list[a].0@ && t[b].0 == list[b].0@);
        assert(totals::key_before(t[a].0, t[b].0));
        totals::lemma_key_order(t[a].0, t[b].0, t[b].0);
    }
    lemma_unique_fold(list, list.len(), key, f);
    if exists|a: int| 0 <= a < list.len() && (#[trigger] list[a]).0@ == key {
        let a = choose|a: int| 0 <= a < list.len() && (#[trigger] list[a]).0@ == key;
        assert(t[a] == (list[a].0@, list[a].1 as int));
    } else {
        assert(!totals::has_key(records, key)) by {
            if totals::has_key(records, key) {
                let k = choose|k: int| 0 <= k < records.len() && (#[trigger] records[k]).0 == key;
                assert(totals::has_key(t, records[k].0));
                let a = choose|a: int| 0 <= a < t.len() && (#[trigger] t[a]).0 == key;
                assert(list[a].0@ == key);
            }
        }
        totals::lemma_missing_key(records, key);
    }
    assert(list.take(list.len() as int) =~= list);
}

/// The fold for a key over a list in which it occurs at most once.
proof fn lemma_unique_fold(
    list: Seq<(String, i64)>,
    n: nat,
    key: Seq<char>,
    f: spec_fn(int, (String, i64)) -> int,
)
    requires
        n <= list.len(),
        forall|a: int, b: int|
            0 <= a < b < list.len() ==> (#[trigger] list[a]).0@ != (#[trigger] list[b]).0@,
        forall|sum: int, e: (String, i64)| #[trigger]
            f(sum, e) == if e.0@ == key {
                sum + e.1
            } else {
                sum
            },
    ensures
        forall|a: int|
            0 <= a < n && (#[trigger] list[a]).0@ == key ==> list.take(n as int).fold_left(0int, f)
                == list[a].1,
        (forall|a: int| 0 <= a < n ==> (#[trigger] list[a]).0@ != key) ==> list.take(
            n as int,
        ).fold_left(0int, f) == 0,
    decreases n,
{
    if n > 0 {
        lemma_unique_fold(list, (n - 1) as nat, key, f);
        assert(list.take(n as int).drop_last() =~= list.take(n - 1));
        assert(list.take(n as int).last() == list[n - 1]);
    }
}

/// What is emitted for a key over all windows is the sum over the windows of the
/// plan.
proof fn lemma_emitted_windows(
    elements: Seq<TimestampedValue<(String, i64)>>,
    plan: Seq<(Window, Seq<int>)>,
    results: Seq<(Window, Vec<(String, i64)>)>,
    key: Seq<char>,
    inner: spec_fn(int, (String, i64)) -> int,
    outer: spec_fn(int, (Window, Vec<(String, i64)>)) -> int,
)
    requires
        runner::sums_plan(elements, plan, results),
        forall|sum: int, e: (String, i64)| #[trigger]
            inner(sum, e) == if e.0@ == key {
                sum + e.1
            } else {
                sum
            },
        forall|sum: int, entry: (Window, Vec<(String, i64)>)| #[trigger]
            outer(sum, entry) == sum + entry.1@.fold_left(0int, inner),
    ensures
        results.fold_left(0int, outer) == sums::sum_over_windows(elements, plan, key),
    decreases plan.len(),
{
    if plan.len() > 0 {
        let (rest, some) = (plan.drop_last(), results.drop_last());
        assert forall|i: int|
            #![trigger some[i]]
            #![trigger rest[i]]
            0 <= i < rest.len() implies some[i].0 == rest[i].0 && totals::is_totals(
            totals::as_totals(some[i].1@),
            runner::records(elements, rest[i].1),
        ) by {
            assert(some[i] == results[i] && rest[i] == plan[i]);
        }
        lemma_emitted_windows(elements, rest, some, key, inner, outer);
        let last = plan.len() - 1;
        assert(results[last] == results.last() && plan[last] == plan.last());
        lemma_emitted_fold(
            results.last().1@,
            runner::records(elements, plan.last().1),
            key,
            inner,
        );
    }
}

/// The total of a key over all records, as a fold over the elements.
proof fn lemma_all_records_fold(
    elements: Seq<TimestampedValue<(String, i64)>>,
    key: Seq<char>,
    g: spec_fn(int, TimestampedValue<(String, i64)>) -> int,
)
    requires
        forall|sum: int, e: TimestampedValue<(String, i64)>| #[trigger]
            g(sum, e) == if e.value.0@ == key {
                sum + e.value.1
            } else {
                sum
            },
    ensures
        totals::key_total(sums::all_records(elements), key) == elements.fold_left(0int, g),
    decreases elements.len(),
{
    if elements.len() > 0 {
        lemma_all_records_fold(elements.drop_last(), key, g);
        assert(sums::all_records(elements).drop_last() =~= sums::all_records(
            elements.drop_last(),
        ));
    }
}

/// With fixed windows and with sessions the emitted sums of a key, added over
/// all emitted windows, are the sum of its values in the collection.
pub proof fn law_emitted_sums_are_conserved(
    elements: Seq<TimestampedValue<(String, i64)>>,
    strategy: WindowingStrategy,
    plan: Seq<(Window, Seq<int>)>,
    results: Seq<(Window, Vec<(String, i64)>)>,
    key: Seq<char>,
)
    requires
        !(strategy is Sliding),
        plan::assignable(strategy, collection::times(elements)),
        plan::is_plan(plan, strategy, collection::times(elements)),
        runner::sums_plan(elements, plan, results),
    ensures
        results.fold_left(
            0int,
            |total: int, entry: (Window, Vec<(String, i64)>)|
                total + entry.1@.fold_left(
                    0int,
                    |sum: int, e: (String, i64)|
                        if e.0@ == key {
                            sum + e.1
                        } else {
                            sum
                        },
                ),
        ) == elements.fold_left(
            0int,
            |sum: int, e: TimestampedValue<(String, i64)>|
                if e.value.0@ == key {
                    sum + e.value.1
                } else {
                    sum
                },
        ),
{
    let inner = |sum: int, e: (String, i64)|
        if e.0@ == key {
            sum + e.1
        } else {
            sum
        };
    let outer = |total: int, entry: (Window, Vec<(String, i64)>)|
        total + entry.1@.fold_left(
            0int,
            |sum: int, e: (String, i64)|
                if e.0@ == key {
                    sum + e.1
                } else {
                    sum
                },
        );
    let g = |sum: int, e: TimestampedValue<(String, i64)>|
        if e.value.0@ == key {
            sum + e.value.1
        } else {
            sum
        };
    lemma_emitted_windows(elements, plan, results, key, inner, outer);
    sums::law_sums_are_conserved(elements, strategy, plan, key);
    lemma_all_records_fold(elements, key, g);
}

/// With sliding windows they are `size / slide` times that sum, rounded up.
pub proof fn law_emitted_sliding_sums_repeat(
    elements: Seq<TimestampedValue<(String, i64)>>,
    size: i64,
    slide: i64,
    plan: Seq<(Window, Seq<int>)>,
    results: Seq<(Window, Vec<(String, i64)>)>,
    key: Seq<char>,
)
    requires
        size > 0,
        slide > 0,
        plan::assignable(
            (WindowingStrategy::Sliding { size_secs: size, slide_secs: slide }),
            collection::times(elements),
        ),
        plan::is_plan(
            plan,
            (WindowingStrategy::Sliding { size_secs: size, slide_secs: slide }),
            collection::times(elements),
        ),
        runner::sums_plan(elements, plan, results),
    ensures
        results.fold_left(
            0int,
            |total: int, entry: (Window, Vec<(String, i64)>)|
                total + entry.1@.fold_left(
                    0int,
                    |sum: int, e: (String, i64)|
                        if e.0@ == key {
                            sum + e.1
                        } else {
                            sum
                        },
                ),
        ) == ((size + slide - 1) / slide as int) * elements.fold_left(
            0int,
            |sum: int, e: TimestampedValue<(String, i64)>|
                if e.value.0@ == key {
                    sum + e.value.1
                } else {
                    sum
                },
        ),
{
    let inner = |sum: int, e: (String, i64)|
        if e.0@ == key {
            sum + e.1
        } else {
            sum
        };
    let outer = |total: int, entry: (Window, Vec<(String, i64)>)|
        total + entry.1@.fold_left(
            0int,
            |sum: int, e: (String, i64)|
                if e.0@ == key {
                    sum + e.1
                } else {
                    sum
                },
        );
    let g = |sum: int, e: TimestampedValue<(String, i64)>|
        if e.value.0@ == key {
            sum + e.value.1
        } else {
            sum
        };
    lemma_emitted_windows(elements, plan, results, key, inner, outer);
    sums::law_sliding_sums_repeat(elements, size, slide, plan, key);
    lemma_all_records_fold(elements, key, g);
}

/// Only a running sum beyond `i64` stands in the way of aggregation: some key
/// has one among the first elements of some window.
pub proof fn law_only_running_sums_stop_aggregation(
    elements: Seq<TimestampedValue<(String, i64)>>,
    plan: Seq<(Window, Seq<int>)>,
)
    requires
        !runner::sums_fit(elements, plan),
    ensures
        exists|i: int, m: int, key: Seq<char>|
            {
                let sum = #[trigger] running_sum(elements, plan[i].1.take(m), key);
                &&& 0 <= i < plan.len()
                &&& 0 <= m <= plan[i].1.len()
                &&& sum < i64::MIN || sum > i64::MAX
            },
{
    let i = choose|i: int|
        0 <= i < plan.len() && !totals::totals_fit(
            runner::records(elements, (#[trigger] plan[i]).1),
        );
    let list = plan[i].1;
    let all = runner::records(elements, list);
    let (m, key) = choose|m: int, key: Seq<char>|
        0 <= m <= all.len() && !(i64::MIN <= #[trigger] totals::key_total(all.take(m), key)
            <= i64::MAX);
    assert(all.take(m) =~= runner::records(elements, list.take(m)));
    lemma_running_sum(elements, plan[i].1.take(m), key);
}

proof fn lemma_running_sum(
    elements: Seq<TimestampedValue<(String, i64)>>,
    list: Seq<int>,
    key: Seq<char>,
)
    ensures
        running_sum(elements, list, key) == totals::key_total(
            runner::records(elements, list),
            key,
        ),
    decreases list.len(),
{
    let all = runner::records(elements, list);
    if list.len() > 0 {
        lemma_running_sum(elements, list.drop_last(), key);
        assert(all.drop_last() =~= runner::records(elements, list.drop_last()));
        let k = list.last();
        assert(all.last() == (elements[k].value.0@, elements[k].value.1 as int));
    }
}

/// A running sum begins at 0 and grows by the values of its key.
pub proof fn law_running_sum_adds_values_of_the_key(
    elements: Seq<TimestampedValue<(String, i64)>>,
    list: Seq<int>,
    k: int,
    key: Seq<char>,
)
    ensures
        running_sum(elements, Seq::empty(), key) == 0,
        elements[k].value.0@ == key ==> running_sum(elements, list.push(k), key) == running_sum(
            elements,
            list,
            key,
        ) + elements[k].value.1,
        elements[k].value.0@ != key ==> running_sum(elements, list.push(k), key) == running_sum(
            elements,
            list,
            key,
        ),
{
    assert(list.push(k).drop_last() =~= list);
    assert(list.push(k).last() == k);
}

/// The sum of the values of a key at listed positions.
pub open spec fn running_sum(
    elements: Seq<TimestampedValue<(String, i64)>>,
    list: Seq<int>,
    key: Seq<char>,
) -> int {
    list.fold_left(
        0int,
        |sum: int, k: int|
            if elements[k].value.0@ == key {
                sum + elements[k].value.1
            } else {
                sum
            },
    )
}

} // verus!
