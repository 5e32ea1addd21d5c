use vstd::prelude::*;

use crate::assigner;
use crate::assigner::WindowAssigner;
use crate::collection;
use crate::collection::{PCollection, TimestampedValue};
use crate::laws::plans;
use crate::order;
use crate::plan;
use crate::totals;
use crate::watermark::Watermark;
use crate::window::{Window, WindowingStrategy};

verus! {

/// Runs pipelines on the local machine.
pub struct DirectRunner;

/// The keys and values of the elements at the `picked` positions.
pub open spec fn records(
    elements: Seq<TimestampedValue<(String, i64)>>,
    picked: Seq<int>,
) -> Seq<(Seq<char>, int)> {
    picked.map_values(|k: int| (elements[k].value.0@, elements[k].value.1 as int))
}

/// Whether every running sum of every key in every window of `plan` lies
/// within `i64`.
pub open spec fn sums_fit(
    elements: Seq<TimestampedValue<(String, i64)>>,
    plan: Seq<(Window, Seq<int>)>,
) -> bool {
    forall|i: int|
        0 <= i < plan.len() ==> totals::totals_fit(records(elements, (#[trigger] plan[i]).1))
}

/// Whether `result` holds the windows of `plan`, each with the sums by key of
/// the elements that it lists.
pub open spec fn sums_plan(
    elements: Seq<TimestampedValue<(String, i64)>>,
    plan: Seq<(Window, Seq<int>)>,
    result: Seq<(Window, Vec<(String, i64)>)>,
) -> bool {
    &&& result.len() == plan.len()
    &&& forall|i: int|
        #![trigger result[i]]
        #![trigger plan[i]]
        0 <= i < plan.len() ==> result[i].0 == plan[i].0 && totals::is_totals(
            totals::as_totals(result[i].1@),
            records(elements, plan[i].1),
        )
}

impl DirectRunner {
    /// Divides the elements into windows and sums the values of each key
    /// within each window. Every window is emitted, with its keys in order.
    pub fn run_windowed_aggregation(
        input: &PCollection<(String, i64)>,
        strategy: &WindowingStrategy,
    ) -> (results: Vec<(Window, Vec<(String, i64)>)>)
        requires
            plan::assignable(*strategy, collection::times(input.elements@)),
            forall|plan: Seq<(Window, Seq<int>)>| #[trigger]
                plan::is_plan(plan, *strategy, collection::times(input.elements@)) ==> sums_fit(
                    input.elements@,
                    plan,
                ),
        ensures
            exists|plan: Seq<(Window, Seq<int>)>|
                {
                    &&& #[trigger] plan::is_plan(
                        plan,
                        *strategy,
                        collection::times(input.elements@),
                    )
                    &&& sums_plan(input.elements@, plan, results@)
                },
    {
        let windowed = WindowAssigner::plan_windows(input, strategy);
        let ghost plan = assigner::as_plan(windowed@);
        let ghost given = windowed@;
        proof {
            plan::lemma_plan_in_range(plan, *strategy, collection::times(input.elements@));
        }
        let mut watermark = Watermark::new();
        let mut results: Vec<(Window, Vec<(String, i64)>)> = Vec::new();
        for entry in it: windowed.into_iter()
            invariant
                it.seq() == given,
                plan == assigner::as_plan(given),
                results.len() == it.index(),
                sums_fit(input.elements@, plan),
                forall|i: int, j: int|
                    0 <= i < plan.len() && 0 <= j < plan[i].1.len() ==> 0
                        <= #[trigger] plan[i].1[j] < input.elements.len(),
                forall|i: int|
                    0 <= i < it.index() ==> (#[trigger] results[i]).0 == plan[i].0
                        && totals::is_totals(
                        totals::as_totals(results[i].1@),
                        records(input.elements@, plan[i].1),
                    ),
        {
            let (window, positions) = entry;
            let ghost picked = order::as_positions(positions@);
            proof {
                assert(plan[it.index() as int] == (window, picked));
                assert forall|j: int| 0 <= j < picked.len() implies 0 <= #[trigger] picked[j]
                    < input.elements.len() by {
                    assert(plan[it.index() as int].1[j] == picked[j]);
                }
            }
            Self::observe(&mut watermark, input, &positions);
            let sums = Self::sum_by_key(input, &positions);
            // All data of a bounded collection is present, so that every
            // window is emitted whatever the watermark.
            results.push((window, sums));
        }
        results
    }

    /// Advances a watermark over the elements at the given positions.
    fn observe(watermark: &mut Watermark, input: &PCollection<(String, i64)>, positions: &Vec<usize>)
        requires
            forall|j: int|
                0 <= j < positions.len() ==> 0 <= #[trigger] order::as_positions(positions@)[j]
                    < input.elements.len(),
        ensures
            final(watermark)@.units() >= old(watermark)@.units(),
            forall|j: int|
                0 <= j < positions.len() ==> ({
                    let time = input.elements[#[trigger] order::as_positions(
                        positions@,
                    )[j]].timestamp;
                    time.nan() || time.units() <= final(watermark)@.units()
                }),
    {
        let ghost picked = order::as_positions(positions@);
        let mut j: usize = 0;
        while j < positions.len()
            invariant
                j <= positions.len(),
                picked == order::as_positions(positions@),
                forall|j: int|
                    0 <= j < picked.len() ==> 0 <= #[trigger] picked[j] < input.elements.len(),
                watermark@.units() >= old(watermark)@.units(),
                forall|m: int|
                    0 <= m < j ==> ({
                        let time = input.elements[#[trigger] picked[m]].timestamp;
                        time.nan() || time.units() <= watermark@.units()
                    }),
            decreases positions.len() - j,
        {
            assert(picked[j as int] == positions[j as int]);
            watermark.advance(input.elements[positions[j]].timestamp);
            j = j + 1;
        }
    }

    /// The sums by key of the elements at the given positions, in key order.
    fn sum_by_key(input: &PCollection<(String, i64)>, positions: &Vec<usize>) -> (sums: Vec<
        (String, i64),
    >)
        requires
            forall|j: int|
                0 <= j < positions.len() ==> 0 <= #[trigger] order::as_positions(positions@)[j]
                    < input.elements.len(),
            totals::totals_fit(records(input.elements@, order::as_positions(positions@))),
        ensures
            totals::is_totals(
                totals::as_totals(sums@),
                records(input.elements@, order::as_positions(positions@)),
            ),
    {
        let ghost picked = order::as_positions(positions@);
        let ghost all = records(input.elements@, picked);
        let mut sums: Vec<(String, i64)> = Vec::new();
        let mut j: usize = 0;
        while j < positions.len()
            invariant
                j <= positions.len(),
                picked == order::as_positions(positions@),
                all == records(input.elements@, picked),
                forall|j: int|
                    0 <= j < picked.len() ==> 0 <= #[trigger] picked[j] < input.elements.len(),
                totals::totals_fit(all),
                totals::is_totals(totals::as_totals(sums@), all.take(j as int)),
            decreases positions.len() - j,
        {
            assert(picked[j as int] == positions[j as int]);
            let (key, value) = &input.elements[positions[j]].value;
            proof {
                assert(all[j as int] == (key@, *value as int));
                assert(all.take(j + 1) =~= all.take(j as int).push(all[j as int]));
                assert(all.take(j + 1).drop_last() =~= all.take(j as int));
                assert(totals::key_total(all.take(j + 1), key@) == totals::key_total(
                    all.take(j as int),
                    key@,
                ) + *value);
            }
            let _added = totals::add_to_key(&mut sums, key, *value, Ghost(all.take(j as int)));
            j = j + 1;
        }
        proof {
            assert(all.take(all.len() as int) =~= all);
        }
        sums
    }

    /// Whether the windows of a strategy, and the sums by key within them, stay
    /// within `i64`, so that the collection can be aggregated.
    pub fn can_aggregate(
        input: &PCollection<(String, i64)>,
        strategy: &WindowingStrategy,
    ) -> (possible: bool)
        ensures
            possible == (plan::assignable(*strategy, collection::times(input.elements@)) && forall|
                plan: Seq<(Window, Seq<int>)>,
            | #[trigger]
                plan::is_plan(plan, *strategy, collection::times(input.elements@)) ==> sums_fit(
                    input.elements@,
                    plan,
                )),
    {
        if !WindowAssigner::can_assign(input, strategy) {
            return false;
        }
        let ghost times = collection::times(input.elements@);
        let windowed = WindowAssigner::plan_windows(input, strategy);
        let ghost plan = assigner::as_plan(windowed@);
        proof {
            plan::lemma_plan_in_range(plan, *strategy, times);
            assert forall|other: Seq<(Window, Seq<int>)>| #[trigger]
                plan::is_plan(other, *strategy, times) implies other == plan by {
                plans::law_plan_is_unique(other, plan, *strategy, times);
            }
        }
        let mut i: usize = 0;
        while i < windowed.len()
            invariant
                i <= windowed.len(),
                times == collection::times(input.elements@),
                plan == assigner::as_plan(windowed@),
                plan::is_plan(plan, *strategy, times),
                forall|i: int, j: int|
                    0 <= i < plan.len() && 0 <= j < plan[i].1.len() ==> 0
                        <= #[trigger] plan[i].1[j] < input.elements.len(),
                forall|m: int|
                    0 <= m < i ==> totals::totals_fit(
                        records(input.elements@, (#[trigger] plan[m]).1),
                    ),
            decreases windowed.len() - i,
        {
            let ghost picked = order::as_positions(windowed[i as int].1@);
            proof {
                assert(plan[i as int] == (windowed[i as int].0, picked));
                assert forall|j: int| 0 <= j < picked.len() implies 0 <= #[trigger] picked[j]
                    < input.elements.len() by {
                    assert(plan[i as int].1[j] == picked[j]);
                }
            }
            if !Self::can_sum(input, &windowed[i].1) {
                assert(!sums_fit(input.elements@, plan));
                return false;
            }
            i = i + 1;
        }
        true
    }

    /// Whether the running sums by key of the elements at the given positions
    /// stay within `i64`.
    fn can_sum(input: &PCollection<(String, i64)>, positions: &Vec<usize>) -> (possible: bool)
        requires
            forall|j: int|
                0 <= j < positions.len() ==> 0 <= #[trigger] order::as_positions(positions@)[j]
                    < input.elements.len(),
        ensures
            possible == totals::totals_fit(
                records(input.elements@, order::as_positions(positions@)),
            ),
    {
        let ghost picked = order::as_positions(positions@);
        let ghost all = records(input.elements@, picked);
        let mut sums: Vec<(String, i64)> = Vec::new();
        let mut j: usize = 0;
        while j < positions.len()
            invariant
                j <= positions.len(),
                picked == order::as_positions(positions@),
                all == records(input.elements@, picked),
                forall|j: int|
                    0 <= j < picked.len() ==> 0 <= #[trigger] picked[j] < input.elements.len(),
                totals::is_totals(totals::as_totals(sums@), all.take(j as int)),
                forall|m: int, key: Seq<char>|
                    0 <= m <= j ==> i64::MIN <= #[trigger] totals::key_total(all.take(m), key)
                        <= i64::MAX,
            decreases positions.len() - j,
        {
            assert(picked[j as int] == positions[j as int]);
            let (key, value) = &input.elements[positions[j]].value;
            proof {
                assert(all[j as int] == (key@, *value as int));
                assert(all.take(j + 1) =~= all.take(j as int).push(all[j as int]));
                assert(all.take(j + 1).drop_last() =~= all.take(j as int));
                assert forall|k: Seq<char>| #[trigger] totals::key_total(all.take(j + 1), k)
                    == totals::key_total(all.take(j as int), k) + if k == key@ {
                    *value as int
                } else {
                    0
                } by {}
            }
            if !totals::add_to_key(&mut sums, key, *value, Ghost(all.take(j as int))) {
                assert(!(i64::MIN <= totals::key_total(all.take(j + 1), key@) <= i64::MAX));
                return false;
            }
            j = j + 1;
        }
        true
    }
}

} // verus!
