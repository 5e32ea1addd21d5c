use vstd::prelude::*;

use crate::collection;
use crate::collection::{PCollection, TimestampedValue};
use crate::groups;
use crate::groups::KeyGroups;
use crate::index;
use crate::timestamp;
use crate::timestamp::Timestamp;

verus! {

/// Whether `earliest` is the least of the given times. NaNs do not count;
/// where nothing else is given it is infinity, and among equal times the first
/// one counts.
pub open spec fn is_earliest(times: Seq<Timestamp>, earliest: Timestamp) -> bool {
    ||| earliest.bits == timestamp::INFINITY_BITS && forall|i: int|
        0 <= i < times.len() ==> (#[trigger] times[i]).nan()
    ||| exists|j: int| first_least(times, j) && #[trigger] times[j] == earliest
}

/// Whether the time at `j` is not a NaN, no other is less, and none before it
/// is equal.
pub open spec fn first_least(times: Seq<Timestamp>, j: int) -> bool {
    &&& 0 <= j < times.len()
    &&& !times[j].nan()
    &&& forall|i: int|
        0 <= i < times.len() ==> (#[trigger] times[i]).nan() || times[i].units()
            >= times[j].units()
    &&& forall|i: int|
        0 <= i < j ==> (#[trigger] times[i]).nan() || times[i].units() > times[j].units()
}

/// The event times of the elements at the `picked` positions.
pub open spec fn picked_times<T>(
    elements: Seq<TimestampedValue<T>>,
    picked: Seq<int>,
) -> Seq<Timestamp> {
    picked.map_values(|k: int| elements[k].timestamp)
}

/// Whether `values` are clones of the values at the `picked` positions.
pub open spec fn clones_values<K, V: Clone>(
    elements: Seq<TimestampedValue<(K, V)>>,
    picked: Seq<int>,
    values: Seq<V>,
) -> bool {
    &&& values.len() == picked.len()
    &&& forall|j: int|
        #![trigger values[j]]
        #![trigger picked[j]]
        0 <= j < picked.len() ==> cloned(elements[picked[j]].value.1, values[j])
}

/// Element-wise and keyed transforms of collections.
pub struct Transforms;

/// The elements that the first `n` elements of `source` expand to, when the
/// value at position `i` expands to `outputs[i]`: each output inherits the
/// event time of the element it came from.
pub open spec fn expansion<T, U>(
    source: Seq<TimestampedValue<T>>,
    outputs: Seq<Vec<U>>,
    n: nat,
) -> Seq<TimestampedValue<U>>
    decreases n,
{
    if n == 0 {
        Seq::empty()
    } else {
        expansion(source, outputs, (n - 1) as nat) + outputs[n - 1]@.map_values(
            |value: U| TimestampedValue { value, timestamp: source[n - 1].timestamp },
        )
    }
}

impl Transforms {
    /// One-to-one transformation: every value goes through `f` and keeps its
    /// place and its event time.
    pub fn map<T: Clone, U: Clone>(input: &PCollection<T>, f: impl Fn(&T) -> U) -> (result:
        PCollection<U>)
        requires
            forall|i: int|
                0 <= i < input.elements.len() ==> call_requires(
                    f,
                    (&(#[trigger] input.elements[i]).value,),
                ),
        ensures
            result.elements.len() == input.elements.len(),
            forall|i: int|
                #![trigger result.elements[i]]
                #![trigger input.elements[i]]
                0 <= i < input.elements.len() ==> call_ensures(
                    f,
                    (&input.elements[i].value,),
                    result.elements[i].value,
                ) && result.elements[i].timestamp == input.elements[i].timestamp,
    {
        let mut result: Vec<TimestampedValue<U>> = Vec::new();
        let mut i: usize = 0;
        while i < input.elements.len()
            invariant
                i <= input.elements.len(),
                result.len() == i,
                forall|i: int|
                    0 <= i < input.elements.len() ==> call_requires(
                        f,
                        (&(#[trigger] input.elements[i]).value,),
                    ),
                forall|j: int|
                    #![trigger result[j]]
                    #![trigger input.elements[j]]
                    0 <= j < i ==> call_ensures(f, (&input.elements[j].value,), result[j].value)
                        && result[j].timestamp == input.elements[j].timestamp,
            decreases input.elements.len() - i,
        {
            let element = &input.elements[i];
            result.push(TimestampedValue::new(f(&element.value), element.timestamp));
            i = i + 1;
        }
        PCollection { elements: result }
    }

    /// One-to-many transformation: every value expands to the values that `f`
    /// gives for it, which inherit its event time.
    pub fn flat_map<T: Clone, U: Clone>(input: &PCollection<T>, f: impl Fn(&T) -> Vec<U>) -> (result:
        PCollection<U>)
        requires
            forall|i: int|
                0 <= i < input.elements.len() ==> call_requires(
                    f,
                    (&(#[trigger] input.elements[i]).value,),
                ),
        ensures
            exists|outputs: Seq<Vec<U>>|
                {
                    &&& outputs.len() == input.elements.len()
                    &&& forall|i: int|
                        #![trigger outputs[i]]
                        #![trigger input.elements[i]]
                        0 <= i < input.elements.len() ==> call_ensures(
                            f,
                            (&input.elements[i].value,),
                            outputs[i],
                        )
                    &&& result.elements@ == #[trigger] expansion(
                        input.elements@,
                        outputs,
                        outputs.len(),
                    )
                },
    {
        let mut result: Vec<TimestampedValue<U>> = Vec::new();
        let ghost mut outputs: Seq<Vec<U>> = Seq::empty();
        let mut i: usize = 0;
        while i < input.elements.len()
            invariant
                i <= input.elements.len(),
                outputs.len() == i,
                forall|i: int|
                    0 <= i < input.elements.len() ==> call_requires(
                        f,
                        (&(#[trigger] input.elements[i]).value,),
                    ),
                forall|j: int|
                    #![trigger outputs[j]]
                    #![trigger input.elements[j]]
                    0 <= j < i ==> call_ensures(f, (&input.elements[j].value,), outputs[j]),
                result@ == expansion(input.elements@, outputs, i as nat),
            decreases input.elements.len() - i,
        {
            let element = &input.elements[i];
            let values = f(&element.value);
            let ghost before = outputs;
            let ghost start = result@;
            let ghost made = values@;
            proof {
                outputs = outputs.push(values);
            }
            for value in it: values.into_iter()
                invariant
                    it.seq() == made,
                    element == input.elements[i as int],
                    result@ == start + made.take(it.index()).map_values(
                        |value: U| TimestampedValue { value, timestamp: element.timestamp },
                    ),
            {
                proof {
                    let f = |value: U| TimestampedValue { value, timestamp: element.timestamp };
                    assert(made.take(it.index() + 1).map_values(f) =~= made.take(
                        it.index(),
                    ).map_values(f).push(f(value)));
                }
                result.push(TimestampedValue::new(value, element.timestamp));
            }
            proof {
                assert(made.take(made.len() as int) =~= made);
                lemma_expansion_prefix(input.elements@, before, outputs, i as nat);
                assert(outputs[i as int]@ == made);
            }
            i = i + 1;
        }
        PCollection { elements: result }
    }

    /// Keeps the elements whose values satisfy the predicate.
    pub fn filter<T: Clone>(input: &PCollection<T>, predicate: impl Fn(&T) -> bool) -> (result:
        PCollection<T>)
        requires
            forall|i: int|
                0 <= i < input.elements.len() ==> call_requires(
                    predicate,
                    (&(#[trigger] input.elements[i]).value,),
                ),
        ensures
            exists|kept: spec_fn(int) -> bool|
                {
                    &&& forall|i: int|
                        #![trigger kept(i)]
                        #![trigger input.elements[i]]
                        0 <= i < input.elements.len() ==> call_ensures(
                            predicate,
                            (&input.elements[i].value,),
                            kept(i),
                        )
                    &&& collection::gathers(
                        input.elements@,
                        #[trigger] index::positions(input.elements@.len(), kept),
                        result.elements@,
                    )
                },
    {
        let mut result: Vec<TimestampedValue<T>> = Vec::new();
        let ghost mut answers: Seq<bool> = Seq::empty();
        let mut i: usize = 0;
        while i < input.elements.len()
            invariant
                i <= input.elements.len(),
                answers.len() == i,
                forall|i: int|
                    0 <= i < input.elements.len() ==> call_requires(
                        predicate,
                        (&(#[trigger] input.elements[i]).value,),
                    ),
                forall|j: int|
                    #![trigger answers[j]]
                    #![trigger input.elements[j]]
                    0 <= j < i ==> call_ensures(
                        predicate,
                        (&input.elements[j].value,),
                        answers[j],
                    ),
                collection::gathers(input.elements@, index::positions(i as nat, |j: int| answers[j]), result@),
            decreases input.elements.len() - i,
        {
            let element = &input.elements[i];
            let keep = predicate(&element.value);
            let ghost before = answers;
            proof {
                answers = answers.push(keep);
                index::lemma_positions_agree(i as nat, |j: int| before[j], |j: int| answers[j]);
            }
            if keep {
                result.push(element.clone());
            }
            i = i + 1;
        }
        proof {
            let kept = |j: int| answers[j];
            assert(collection::gathers(input.elements@, index::positions(input.elements@.len(), kept), result@));
            assert forall|i: int|
                #![trigger kept(i)]
                #![trigger input.elements[i]]
                0 <= i < input.elements.len() implies call_ensures(
                predicate,
                (&input.elements[i].value,),
                kept(i),
            ) by {
                assert(kept(i) == answers[i]);
            }
        }
        PCollection { elements: result }
    }

    /// Groups keyed elements by key. Each key has one group, with its values
    /// in the order of the collection and their event times; the groups are in
    /// the order in which their keys first occur.
    pub fn group_by_key<K: View + Clone + Eq, V: Clone>(input: &PCollection<(K, V)>) -> (groups:
        KeyGroups<K, V>)
        requires
            groups::lawful_key::<K>(),
        ensures
            groups.wf(),
            groups::groups_by_key(input.elements@, groups.entries@),
    {
        KeyGroups::group(input)
    }

    /// Groups keyed elements by key and combines the values of each key into
    /// one, at the earliest event time among them.
    pub fn combine_per_key<K: View + Clone + Eq, V: Clone, R: Clone>(
        input: &PCollection<(K, V)>,
        combiner: impl Fn(&[V]) -> R,
    ) -> (result: PCollection<(K, R)>)
        requires
            groups::lawful_key::<K>(),
            forall|g: int, values: &[V]|
                0 <= g < groups::first_seen(groups::keys(input.elements@)).len()
                    && #[trigger] clones_values(
                    input.elements@,
                    groups::key_positions(
                        groups::keys(input.elements@),
                        groups::first_seen(groups::keys(input.elements@))[g],
                    ),
                    values@,
                ) ==> call_requires(combiner, (values,)),
        ensures
            result.elements.len() == groups::first_seen(groups::keys(input.elements@)).len(),
            forall|g: int|
                0 <= g < result.elements.len() ==> combines(
                    input.elements@,
                    groups::first_seen(groups::keys(input.elements@))[g],
                    combiner,
                    #[trigger] result.elements[g],
                ),
    {
        let groups = Self::group_by_key(input);
        let ghost given = groups.entries@;
        let ghost elements = input.elements@;
        let ghost all_keys = groups::keys(elements);
        let ghost seen = groups::first_seen(all_keys);
        let mut results: Vec<TimestampedValue<(K, R)>> = Vec::new();
        for entry in it: groups.entries.into_iter()
            invariant
                it.seq() == given,
                elements == input.elements@,
                all_keys == groups::keys(elements),
                seen == groups::first_seen(all_keys),
                groups::groups_by_key(elements, given),
                forall|g: int, values: &[V]|
                    0 <= g < seen.len() && #[trigger] clones_values(
                        elements,
                        groups::key_positions(all_keys, seen[g]),
                        values@,
                    ) ==> call_requires(combiner, (values,)),
                results.len() == it.index(),
                forall|g: int|
                    0 <= g < it.index() ==> combines(
                        elements,
                        seen[g],
                        combiner,
                        #[trigger] results[g],
                    ),
        {
            let ghost g = it.index() as int;
            let (key, group) = entry;
            let ghost picked = groups::key_positions(all_keys, seen[g]);
            let ghost times = picked_times(elements, picked);
            assert(given[g] == (key, group));
            assert(groups::gathers_values(elements, picked, group@));
            let (values, earliest) = Self::split_group(group);
            proof {
                assert(collection::times(group@) =~= times);
            }
            let slice = values.as_slice();
            proof {
                assert(clones_values(elements, picked, slice@));
            }
            let combined = combiner(slice);
            assert(call_ensures(combiner, (slice,), combined));
            results.push(TimestampedValue::new((key, combined), earliest));
            proof {
                assert(given[g].0@ == seen[g]);
                assert(clones_values(elements, picked, slice@) && call_ensures(
                    combiner,
                    (slice,),
                    results[g].value.1,
                ));
                assert(combines(elements, seen[g], combiner, results[g]));
            }
        }
        PCollection { elements: results }
    }

    /// The values of a group and the earliest of their event times.
    fn split_group<V>(group: Vec<TimestampedValue<V>>) -> (parts: (Vec<V>, Timestamp))
        ensures
            parts.0@ == group@.map_values(|element: TimestampedValue<V>| element.value),
            is_earliest(collection::times(group@), parts.1),
    {
        let ghost given = group@;
        let ghost times = collection::times(given);
        let mut values: Vec<V> = Vec::new();
        let mut earliest = Timestamp { bits: timestamp::INFINITY_BITS };
        for element in it: group.into_iter()
            invariant
                it.seq() == given,
                times == collection::times(given),
                values@ == given.take(it.index()).map_values(
                    |element: TimestampedValue<V>| element.value,
                ),
                is_earliest(times.take(it.index()), earliest),
        {
            let ghost i = it.index() as int;
            proof {
                assert(times[i] == element.timestamp);
                assert(times.take(i + 1) =~= times.take(i).push(element.timestamp));
                let f = |element: TimestampedValue<V>| element.value;
                assert(given.take(i + 1).map_values(f) =~= given.take(i).map_values(f).push(
                    f(element),
                ));
                lemma_earliest_push(times.take(i), earliest, element.timestamp);
            }
            if earliest.is_later(&element.timestamp) {
                earliest = element.timestamp;
            }
            values.push(element.value);
        }
        proof {
            assert(given.take(given.len() as int) =~= given);
            assert(times.take(times.len() as int) =~= times);
        }
        (values, earliest)
    }
}

/// Whether `output` is what combining the values of `key` gives: the key, what
/// the combiner returns on clones of its values in their order, and the
/// earliest of their event times.
pub open spec fn combines<K: View, V: Clone, R, F: Fn(&[V]) -> R>(
    elements: Seq<TimestampedValue<(K, V)>>,
    key: K::V,
    combiner: F,
    output: TimestampedValue<(K, R)>,
) -> bool {
    let picked = groups::key_positions(groups::keys(elements), key);
    &&& output.value.0@ == key
    &&& exists|values: &[V]|
        clones_values(elements, picked, values@) && #[trigger] call_ensures(
            combiner,
            (values,),
            output.value.1,
        )
    &&& is_earliest(picked_times(elements, picked), output.timestamp)
}

/// The earliest of one more time.
proof fn lemma_earliest_push(times: Seq<Timestamp>, earliest: Timestamp, time: Timestamp)
    requires
        is_earliest(times, earliest),
    ensures
        is_earliest(
            times.push(time),
            if earliest.later(time) {
                time
            } else {
                earliest
            },
        ),
{
    let all = times.push(time);
    let infinity = Timestamp { bits: timestamp::INFINITY_BITS };
    timestamp::lemma_units_order(infinity, time);
    if forall|i: int| 0 <= i < times.len() ==> (#[trigger] times[i]).nan() {
        if time.nan() {
            assert(forall|i: int| 0 <= i < all.len() ==> (#[trigger] all[i]).nan());
        } else {
            assert(earliest.bits == infinity.bits);
            assert(first_least(all, times.len() as int));
            assert(all[times.len() as int] == time);
        }
    } else {
        let j = choose|j: int| first_least(times, j) && #[trigger] times[j] == earliest;
        if earliest.later(time) {
            assert(first_least(all, times.len() as int));
            assert(all[times.len() as int] == time);
        } else {
            assert(first_least(all, j));
            assert(all[j] == earliest);
        }
    }
}

/// The expansion of a prefix does not depend on later outputs.
proof fn lemma_expansion_prefix<T, U>(
    source: Seq<TimestampedValue<T>>,
    a: Seq<Vec<U>>,
    b: Seq<Vec<U>>,
    n: nat,
)
    requires
        n <= a.len(),
        n <= b.len(),
        forall|i: int| 0 <= i < n ==> a[i] == b[i],
    ensures
        expansion(source, a, n) == expansion(source, b, n),
    decreases n,
{
    if n > 0 {
        lemma_expansion_prefix(source, a, b, (n - 1) as nat);
    }
}

} // verus!
