use vstd::prelude::*;
use vstd::seq_lib::*;

use crate::collection;
use crate::collection::TimestampedValue;
use crate::groups;
use crate::index;
use crate::laws::plans;
use crate::laws::rearranging;
use crate::laws::sessions;
use crate::laws::windows;
use crate::plan;
use crate::runner;
use crate::totals;
use crate::window::{Window, WindowingStrategy};

verus! {

/// The sums of a key over all windows of a plan, taken together.
pub open spec fn sum_over_windows(
    elements: Seq<TimestampedValue<(String, i64)>>,
    plan: Seq<(Window, Seq<int>)>,
    key: Seq<char>,
) -> int
    decreases plan.len(),
{
    if plan.len() == 0 {
        0
    } else {
        sum_over_windows(elements, plan.drop_last(), key) + totals::key_total(
            runner::records(elements, plan.last().1),
            key,
        )
    }
}

/// The keys and values of all elements.
pub open spec fn all_records(elements: Seq<TimestampedValue<(String, i64)>>) -> Seq<
    (Seq<char>, int),
> {
    elements.map_values(
        |element: TimestampedValue<(String, i64)>| (element.value.0@, element.value.1 as int),
    )
}

/// The sum of the values recorded for `key`, each taken as often as the weight
/// of its position says.
pub open spec fn weighted_total(
    records: Seq<(Seq<char>, int)>,
    key: Seq<char>,
    weight: spec_fn(int) -> int,
) -> int
    decreases records.len(),
{
    if records.len() == 0 {
        0
    } else {
        let rest = weighted_total(records.drop_last(), key, weight);
        if records.last().0 == key {
            rest + records.last().1 * weight(records.len() - 1)
        } else {
            rest
        }
    }
}

/// Weights add up.
proof fn lemma_weights_add(
    records: Seq<(Seq<char>, int)>,
    key: Seq<char>,
    a: spec_fn(int) -> int,
    b: spec_fn(int) -> int,
    both: spec_fn(int) -> int,
)
    requires
        forall|k: int| 0 <= k < records.len() ==> #[trigger] both(k) == a(k) + b(k),
    ensures
        weighted_total(records, key, both) == weighted_total(records, key, a) + weighted_total(
            records,
            key,
            b,
        ),
    decreases records.len(),
{
    if records.len() > 0 {
        lemma_weights_add(records.drop_last(), key, a, b, both);
        let last = records.len() - 1;
        let value = records.last().1;
        assert(both(last) == a(last) + b(last));
        assert(value * (a(last) + b(last)) == value * a(last) + value * b(last))
            by (nonlinear_arith);
    }
}

/// Where all weights are the same, the sum is that many times the plain sum.
proof fn lemma_weights_same(
    records: Seq<(Seq<char>, int)>,
    key: Seq<char>,
    weight: spec_fn(int) -> int,
    times: int,
)
    requires
        forall|k: int| 0 <= k < records.len() ==> #[trigger] weight(k) == times,
    ensures
        weighted_total(records, key, weight) == times * totals::key_total(records, key),
    decreases records.len(),
{
    if records.len() > 0 {
        lemma_weights_same(records.drop_last(), key, weight, times);
        let rest = totals::key_total(records.drop_last(), key);
        let value = records.last().1;
        assert(weight(records.len() - 1) == times);
        assert(times * (rest + value) == times * rest + value * times) by (nonlinear_arith);
    } else {
        assert(times * 0 == 0) by (nonlinear_arith);
    }
}

/// Where one position has weight 1 and all others 0, its value is left.
proof fn lemma_weight_one(
    records: Seq<(Seq<char>, int)>,
    key: Seq<char>,
    weight: spec_fn(int) -> int,
    at: int,
)
    requires
        forall|k: int|
            0 <= k < records.len() ==> #[trigger] weight(k) == if k == at {
                1int
            } else {
                0int
            },
    ensures
        weighted_total(records, key, weight) == if 0 <= at < records.len() && records[at].0 == key {
            records[at].1
        } else {
            0
        },
    decreases records.len(),
{
    if records.len() > 0 {
        lemma_weight_one(records.drop_last(), key, weight, at);
        let w = weight(records.len() - 1);
        assert(records.last().1 * w == if w == 1 {
            records.last().1
        } else {
            0
        }) by (nonlinear_arith)
            requires
                w == 0 || w == 1,
        ;
    }
}

/// The sum over listed positions, none of them twice, is that of all elements
/// with weight 1 for those listed and 0 for others.
proof fn lemma_listed_total(
    elements: Seq<TimestampedValue<(String, i64)>>,
    list: Seq<int>,
    key: Seq<char>,
    weight: spec_fn(int) -> int,
)
    requires
        forall|a: int, b: int|
            0 <= a < b < list.len() ==> #[trigger] list[a] != #[trigger] list[b],
        forall|a: int| 0 <= a < list.len() ==> 0 <= #[trigger] list[a] < elements.len(),
        forall|k: int| #[trigger]
            weight(k) == if list.contains(k) {
                1int
            } else {
                0int
            },
    ensures
        totals::key_total(runner::records(elements, list), key) == weighted_total(
            all_records(elements),
            key,
            weight,
        ),
    decreases list.len(),
{
    let all = all_records(elements);
    let chosen = runner::records(elements, list);
    if list.len() == 0 {
        lemma_weights_same(all, key, weight, 0);
    } else {
        let rest = list.drop_last();
        let last = list.last();
        let others = |k: int|
            if rest.contains(k) {
                1int
            } else {
                0int
            };
        let one = |k: int|
            if k == last {
                1int
            } else {
                0int
            };
        assert forall|k: int| #[trigger] weight(k) == others(k) + one(k) by {
            if rest.contains(k) {
                let a = choose|a: int| 0 <= a < rest.len() && rest[a] == k;
                assert(list[a] == k);
                assert(list[a] != list[list.len() - 1]);
            }
            if k == last {
                assert(list[list.len() - 1] == k);
            }
            if list.contains(k) && k != last {
                let a = choose|a: int| 0 <= a < list.len() && list[a] == k;
                assert(rest[a] == k);
            }
        }
        lemma_listed_total(elements, rest, key, others);
        lemma_weight_one(all, key, one, last);
        lemma_weights_add(all, key, others, one, weight);
        assert(chosen.drop_last() =~= runner::records(elements, rest));
        assert(0 <= list[list.len() - 1] < elements.len());
        assert(chosen.last() == all[last]);
    }
}

/// Over all windows, each value is counted as often as there are windows that
/// hold its element.
pub proof fn law_values_count_once_per_window(
    elements: Seq<TimestampedValue<(String, i64)>>,
    strategy: WindowingStrategy,
    plan: Seq<(Window, Seq<int>)>,
    key: Seq<char>,
)
    requires
        plan::is_plan(plan, strategy, collection::times(elements)),
    ensures
        sum_over_windows(elements, plan, key) == weighted_total(
            all_records(elements),
            key,
            |k: int| windows::windows_holding(plan, k) as int,
        ),
{
    let times = collection::times(elements);
    plan::lemma_plan_in_range(plan, strategy, times);
    assert forall|i: int, a: int, b: int|
        0 <= i < plan.len() && 0 <= a < b < plan[i].1.len() implies #[trigger] plan[i].1[a]
        != #[trigger] plan[i].1[b] by {
        plans::lemma_listed_once(plan, strategy, times, i);
    }
    lemma_windows_counted(elements, plan, key);
}

proof fn lemma_windows_counted(
    elements: Seq<TimestampedValue<(String, i64)>>,
    plan: Seq<(Window, Seq<int>)>,
    key: Seq<char>,
)
    requires
        forall|i: int, a: int, b: int|
            0 <= i < plan.len() && 0 <= a < b < plan[i].1.len() ==> #[trigger] plan[i].1[a]
                != #[trigger] plan[i].1[b],
        forall|i: int, a: int|
            0 <= i < plan.len() && 0 <= a < plan[i].1.len() ==> 0 <= #[trigger] plan[i].1[a]
                < elements.len(),
    ensures
        sum_over_windows(elements, plan, key) == weighted_total(
            all_records(elements),
            key,
            |k: int| windows::windows_holding(plan, k) as int,
        ),
    decreases plan.len(),
{
    let all = all_records(elements);
    let held = |k: int| windows::windows_holding(plan, k) as int;
    if plan.len() == 0 {
        lemma_weights_same(all, key, held, 0);
    } else {
        let rest = plan.drop_last();
        let list = plan.last().1;
        let before = |k: int| windows::windows_holding(rest, k) as int;
        let here = |k: int|
            if list.contains(k) {
                1int
            } else {
                0int
            };
        assert forall|k: int| #[trigger] held(k) == before(k) + here(k) by {
            index::lemma_positions_agree(
                rest.len(),
                |i: int| rest[i].1.contains(k),
                |i: int| plan[i].1.contains(k),
            );
        }
        assert forall|i: int, a: int, b: int|
            0 <= i < rest.len() && 0 <= a < b < rest[i].1.len() implies #[trigger] rest[i].1[a]
            != #[trigger] rest[i].1[b] by {
            assert(plan[i].1[a] != plan[i].1[b]);
        }
        assert forall|i: int, a: int| 0 <= i < rest.len() && 0 <= a < rest[i].1.len() implies 0
            <= #[trigger] rest[i].1[a] < elements.len() by {
            assert(0 <= plan[i].1[a] < elements.len());
        }
        lemma_windows_counted(elements, rest, key);
        let last = plan.len() - 1;
        assert forall|a: int, b: int| 0 <= a < b < list.len() implies #[trigger] list[a]
            != #[trigger] list[b] by {
            assert(plan[last].1[a] != plan[last].1[b]);
        }
        assert forall|a: int| 0 <= a < list.len() implies 0 <= #[trigger] list[a]
            < elements.len() by {
            assert(0 <= plan[last].1[a] < elements.len());
        }
        lemma_listed_total(elements, list, key, here);
        lemma_weights_add(all, key, before, here, held);
    }
}

/// With fixed windows and with sessions nothing is lost and nothing counted
/// twice: over all windows the sums of a key make up the sum of its values in
/// the collection.
pub proof fn law_sums_are_conserved(
    elements: Seq<TimestampedValue<(String, i64)>>,
    strategy: WindowingStrategy,
    plan: Seq<(Window, Seq<int>)>,
    key: Seq<char>,
)
    requires
        !(strategy is Sliding),
        plan::assignable(strategy, collection::times(elements)),
        plan::is_plan(plan, strategy, collection::times(elements)),
    ensures
        sum_over_windows(elements, plan, key) == totals::key_total(all_records(elements), key),
{
    let times = collection::times(elements);
    let held = |k: int| windows::windows_holding(plan, k) as int;
    law_values_count_once_per_window(elements, strategy, plan, key);
    assert forall|k: int| 0 <= k < elements.len() implies #[trigger] held(k) == 1 by {
        match strategy {
            WindowingStrategy::Fixed { size_secs } => {
                windows::law_fixed_one_window(plan, size_secs, times, k);
            },
            WindowingStrategy::Session { gap_secs } => {
                sessions::law_session_one_window(plan, gap_secs, times, k);
            },
            _ => {},
        }
        windows::lemma_held_once(plan, k);
    }
    lemma_weights_same(all_records(elements), key, held, 1);
}

/// With sliding windows every value is counted `size / slide` times, rounded up.
pub proof fn law_sliding_sums_repeat(
    elements: Seq<TimestampedValue<(String, i64)>>,
    size: i64,
    slide: i64,
    plan: Seq<(Window, Seq<int>)>,
    key: Seq<char>,
)
    requires
        size > 0,
        slide > 0,
        plan::assignable(
            (WindowingStrategy::Sliding { size_secs: size, slide_secs: slide }),
            collection::times(elements),
        ),
        plan::is_plan(
            plan,
            (WindowingStrategy::Sliding { size_secs: size, slide_secs: slide }),
            collection::times(elements),
        ),
    ensures
        sum_over_windows(elements, plan, key) == ((size + slide - 1) / slide as int)
            * totals::key_total(all_records(elements), key),
{
    let times = collection::times(elements);
    let strategy = WindowingStrategy::Sliding { size_secs: size, slide_secs: slide };
    let held = |k: int| windows::windows_holding(plan, k) as int;
    law_values_count_once_per_window(elements, strategy, plan, key);
    assert forall|k: int| 0 <= k < elements.len() implies #[trigger] held(k) == (size + slide - 1)
        / slide as int by {
        windows::law_sliding_window_count(plan, size, slide, times, k);
    }
    lemma_weights_same(all_records(elements), key, held, (size + slide - 1) / slide as int);
}

/// Aggregation is grouping by key followed by summing: the keys of the totals
/// are those of the groups, and each total is the sum over the positions of
/// its key.
pub proof fn law_totals_sum_groups(
    totals: Seq<(Seq<char>, int)>,
    records: Seq<(Seq<char>, int)>,
    i: int,
)
    requires
        totals::is_totals(totals, records),
        0 <= i < totals.len(),
    ensures
        totals.len() == groups::first_seen(record_keys(records)).len(),
        groups::first_seen(record_keys(records)).contains(totals[i].0),
        totals[i].1 == sum_at(records, groups::key_positions(record_keys(records), totals[i].0)),
{
    let keys = record_keys(records);
    let seen = groups::first_seen(keys);
    groups::lemma_first_seen(keys);
    lemma_key_total_is_sum(records, totals[i].0);
    let listed = totals.map_values(|entry: (Seq<char>, int)| entry.0);
    assert forall|key: Seq<char>| #[trigger] listed.contains(key) <==> seen.contains(key) by {
        if listed.contains(key) {
            let j = choose|j: int| 0 <= j < listed.len() && listed[j] == key;
            assert(totals[j].0 == key);
            let k = choose|k: int| 0 <= k < records.len() && (#[trigger] records[k]).0 == key;
            assert(keys[k] == key);
            assert(keys.contains(key));
        }
        if seen.contains(key) {
            assert(keys.contains(key));
            let k = choose|k: int| 0 <= k < keys.len() && keys[k] == key;
            assert(totals::has_key(totals, records[k].0));
            let j = choose|j: int| 0 <= j < totals.len() && (#[trigger] totals[j]).0 == key;
            assert(listed[j] == key);
        }
    }
    assert(listed[i] == totals[i].0);
    assert(listed.contains(totals[i].0));
    assert forall|a: int, b: int| 0 <= a < b < listed.len() implies listed[a] != listed[b] by {
        assert(totals::key_before(totals[a].0, totals[b].0));
        totals::lemma_key_order(totals[a].0, totals[b].0, totals[b].0);
    }
    assert(listed.no_duplicates());
    assert(seen.no_duplicates());
    assert(listed.to_set() =~= seen.to_set());
    listed.unique_seq_to_set();
    seen.unique_seq_to_set();
}

/// The keys of records.
pub open spec fn record_keys(records: Seq<(Seq<char>, int)>) -> Seq<Seq<char>> {
    records.map_values(|record: (Seq<char>, int)| record.0)
}

/// The sum of the values at the `picked` positions.
pub open spec fn sum_at(records: Seq<(Seq<char>, int)>, picked: Seq<int>) -> int
    decreases picked.len(),
{
    if picked.len() == 0 {
        0
    } else {
        sum_at(records, picked.drop_last()) + records[picked.last()].1
    }
}

proof fn lemma_key_total_is_sum(records: Seq<(Seq<char>, int)>, key: Seq<char>)
    ensures
        totals::key_total(records, key) == sum_at(
            records,
            groups::key_positions(record_keys(records), key),
        ),
    decreases records.len(),
{
    if records.len() > 0 {
        let rest = records.drop_last();
        let (keys, rest_keys) = (record_keys(records), record_keys(rest));
        let last = records.last();
        lemma_key_total_is_sum(rest, key);
        assert(keys =~= rest_keys.push(last.0));
        groups::lemma_key_positions_push(rest_keys, last.0, key);
        let picked = groups::key_positions(rest_keys, key);
        groups::lemma_key_positions(rest_keys, key);
        lemma_sum_at_prefix(rest, records, picked);
        if last.0 == key {
            assert(picked.push(rest.len() as int).drop_last() =~= picked);
        }
    }
}

proof fn lemma_sum_at_prefix(
    few: Seq<(Seq<char>, int)>,
    many: Seq<(Seq<char>, int)>,
    picked: Seq<int>,
)
    requires
        few == many.drop_last(),
        many.len() > 0,
        forall|i: int| 0 <= i < picked.len() ==> 0 <= #[trigger] picked[i] < few.len(),
    ensures
        sum_at(few, picked) == sum_at(many, picked),
    decreases picked.len(),
{
    if picked.len() > 0 {
        assert(0 <= picked[picked.len() - 1] < few.len());
        lemma_sum_at_prefix(few, many, picked.drop_last());
    }
}

/// A record at any place counts toward the sum of its key.
proof fn lemma_total_without(records: Seq<(Seq<char>, int)>, at: int, key: Seq<char>)
    requires
        0 <= at < records.len(),
    ensures
        totals::key_total(records, key) == totals::key_total(records.remove(at), key) + if records[at].0
            == key {
            records[at].1
        } else {
            0
        },
    decreases records.len(),
{
    let last = records.len() - 1;
    if at == last {
        assert(records.remove(at) =~= records.drop_last());
    } else {
        let rest = records.drop_last();
        lemma_total_without(rest, at, key);
        assert(records.remove(at).drop_last() =~= rest.remove(at));
        assert(records.remove(at).last() == records.last());
    }
}

/// Records in another order have the same sums.
proof fn lemma_totals_rearranged(
    a: Seq<(Seq<char>, int)>,
    b: Seq<(Seq<char>, int)>,
    key: Seq<char>,
)
    requires
        a.to_multiset() == b.to_multiset(),
    ensures
        totals::key_total(a, key) == totals::key_total(b, key),
    decreases a.len(),
{
    broadcast use group_to_multiset_ensures;

    assert(a.len() == a.to_multiset().len() && b.len() == b.to_multiset().len());
    if a.len() > 0 {
        let last = a.len() - 1;
        let x = a[last];
        assert(a.contains(x));
        assert(a.to_multiset().count(x) > 0);
        assert(b.contains(x));
        let j = choose|j: int| 0 <= j < b.len() && b[j] == x;
        assert(a.remove(last).to_multiset() =~= a.to_multiset().remove(x));
        assert(b.remove(j).to_multiset() =~= b.to_multiset().remove(x));
        lemma_totals_rearranged(a.remove(last), b.remove(j), key);
        lemma_total_without(a, last, key);
        lemma_total_without(b, j, key);
    }
}

/// Records in another order have the same keys.
proof fn lemma_keys_rearranged(
    a: Seq<(Seq<char>, int)>,
    b: Seq<(Seq<char>, int)>,
    key: Seq<char>,
)
    requires
        a.to_multiset() == b.to_multiset(),
        totals::has_key(a, key),
    ensures
        totals::has_key(b, key),
{
    broadcast use group_to_multiset_ensures;

    let i = choose|i: int| 0 <= i < a.len() && (#[trigger] a[i]).0 == key;
    assert(a.contains(a[i]));
    assert(a.to_multiset().count(a[i]) > 0);
    assert(b.contains(a[i]));
    let j = choose|j: int| 0 <= j < b.len() && b[j] == a[i];
    assert(b[j].0 == key);
}

/// The order of a collection does not matter to its aggregation: the same
/// elements in another order give the same windows, each with the same keys in
/// the same order and the same sums.
pub proof fn law_order_does_not_matter_to_sums(
    elements: Seq<TimestampedValue<(String, i64)>>,
    order: Seq<int>,
    strategy: WindowingStrategy,
    plan: Seq<(Window, Seq<int>)>,
    results: Seq<(Window, Vec<(String, i64)>)>,
    moved_plan: Seq<(Window, Seq<int>)>,
    moved_results: Seq<(Window, Vec<(String, i64)>)>,
)
    requires
        rearranging::rearranges(order, elements.len()),
        plans::keeps_ties(strategy, collection::times(elements)),
        plan::is_plan(plan, strategy, collection::times(elements)),
        runner::sums_plan(elements, plan, results),
        plan::is_plan(
            moved_plan,
            strategy,
            collection::times(rearranging::picked(elements, order)),
        ),
        runner::sums_plan(rearranging::picked(elements, order), moved_plan, moved_results),
    ensures
        moved_results.len() == results.len(),
        forall|i: int|
            #![trigger results[i]]
            #![trigger moved_results[i]]
            0 <= i < results.len() ==> results[i].0 == moved_results[i].0 && totals::as_totals(
                results[i].1@,
            ) == totals::as_totals(moved_results[i].1@),
{
    let moved = rearranging::picked(elements, order);
    plans::law_order_does_not_matter(elements, order, strategy, plan, moved_plan);
    assert forall|i: int|
        #![trigger results[i]]
        #![trigger moved_results[i]]
        0 <= i < results.len() implies results[i].0 == moved_results[i].0 && totals::as_totals(
        results[i].1@,
    ) == totals::as_totals(moved_results[i].1@) by {
        assert(plan[i].0 == moved_plan[i].0);
        let (a, b) = (
            runner::records(elements, plan[i].1),
            runner::records(moved, moved_plan[i].1),
        );
        let record = |element: TimestampedValue<(String, i64)>|
            (element.value.0@, element.value.1 as int);
        let (held, moved_held) = (
            rearranging::picked(elements, plan[i].1),
            rearranging::picked(moved, moved_plan[i].1),
        );
        rearranging::lemma_same_mapped(held, moved_held, record);
        assert(a =~= held.map_values(record));
        assert(b =~= moved_held.map_values(record));
        let (s, t) = (
            totals::as_totals(results[i].1@),
            totals::as_totals(moved_results[i].1@),
        );
        assert(totals::is_totals(t, b));
        assert forall|j: int| 0 <= j < t.len() implies (#[trigger] t[j]).1 == totals::key_total(
            a,
            t[j].0,
        ) && totals::has_key(a, t[j].0) by {
            lemma_totals_rearranged(a, b, t[j].0);
            lemma_keys_rearranged(b, a, t[j].0);
        }
        assert forall|j: int| 0 <= j < a.len() implies totals::has_key(
            t,
            (#[trigger] a[j]).0,
        ) by {
            assert(totals::has_key(a, a[j].0));
            lemma_keys_rearranged(a, b, a[j].0);
            lemma_key_listed(t, b, a[j].0);
        }
        law_totals_are_unique(s, t, a);
    }
}

/// The elements of a window settle its sums and their order.
pub proof fn law_totals_are_unique(
    a: Seq<(Seq<char>, int)>,
    b: Seq<(Seq<char>, int)>,
    records: Seq<(Seq<char>, int)>,
)
    requires
        totals::is_totals(a, records),
        totals::is_totals(b, records),
    ensures
        a == b,
{
    let key = |entry: (Seq<char>, int)| entry.0;
    let (s, t) = (a.map_values(key), b.map_values(key));
    assert forall|x: Seq<char>| #[trigger] s.contains(x) <==> t.contains(x) by {
        if s.contains(x) {
            let i = choose|i: int| 0 <= i < s.len() && s[i] == x;
            lemma_key_listed(b, records, a[i].0);
            let j = choose|j: int| 0 <= j < b.len() && (#[trigger] b[j]).0 == x;
            assert(t[j] == x);
        }
        if t.contains(x) {
            let i = choose|i: int| 0 <= i < t.len() && t[i] == x;
            lemma_key_listed(a, records, b[i].0);
            let j = choose|j: int| 0 <= j < a.len() && (#[trigger] a[j]).0 == x;
            assert(s[j] == x);
        }
    }
    let before = |x: Seq<char>, y: Seq<char>| totals::key_before(x, y);
    assert forall|x: Seq<char>, y: Seq<char>| #[trigger] before(x, y) implies !before(y, x) by {
        totals::lemma_key_order(x, y, x);
    }
    assert forall|i: int, j: int| 0 <= i < j < s.len() implies before(
        #[trigger] s[i],
        #[trigger] s[j],
    ) by {
        assert(totals::key_before(a[i].0, a[j].0));
    }
    assert forall|i: int, j: int| 0 <= i < j < t.len() implies before(
        #[trigger] t[i],
        #[trigger] t[j],
    ) by {
        assert(totals::key_before(b[i].0, b[j].0));
    }
    plans::lemma_ordered_unique(s, t, before);
    assert(a.len() == s.len() && b.len() == t.len());
    assert forall|i: int| 0 <= i < a.len() implies #[trigger] a[i] == b[i] by {
        assert(s[i] == t[i]);
        assert(a[i].0 == b[i].0);
        assert(a[i].1 == b[i].1);
    }
    assert(a =~= b);
}

proof fn lemma_key_listed(
    totals: Seq<(Seq<char>, int)>,
    records: Seq<(Seq<char>, int)>,
    key: Seq<char>,
)
    requires
        totals::is_totals(totals, records),
        totals::has_key(records, key),
    ensures
        totals::has_key(totals, key),
{
    let i = choose|i: int| 0 <= i < records.len() && (#[trigger] records[i]).0 == key;
    assert(totals::has_key(totals, records[i].0));
}

/// Aggregation emits exactly the windows that assignment finds, in the same
/// order.
pub proof fn law_every_window_is_emitted(
    elements: Seq<TimestampedValue<(String, i64)>>,
    strategy: WindowingStrategy,
    assigned_plan: Seq<(Window, Seq<int>)>,
    assigned: Seq<(Window, Vec<TimestampedValue<(String, i64)>>)>,
    summed_plan: Seq<(Window, Seq<int>)>,
    summed: Seq<(Window, Vec<(String, i64)>)>,
)
    requires
        plan::is_plan(assigned_plan, strategy, collection::times(elements)),
        plan::gathers_plan(elements, assigned_plan, assigned),
        plan::is_plan(summed_plan, strategy, collection::times(elements)),
        runner::sums_plan(elements, summed_plan, summed),
    ensures
        assigned.len() == summed.len(),
        forall|i: int|
            0 <= i < assigned.len() ==> (#[trigger] assigned[i]).0 == (#[trigger] summed[i]).0,
{
    plans::law_plan_is_unique(assigned_plan, summed_plan, strategy, collection::times(elements));
}

} // verus!
