use vstd::prelude::*;

use crate::collection;
use crate::collection::TimestampedValue;
use crate::groups;
use crate::index;
use crate::transforms;

verus! {

/// A copy of an element has a clone of its value and its event time.
pub proof fn law_copies_keep_value_and_time<T: Clone>(
    element: TimestampedValue<T>,
    copy: TimestampedValue<T>,
)
    ensures
        collection::clone_of(element, copy) <==> cloned(element.value, copy.value)
            && copy.timestamp == element.timestamp,
{
}

/// The positions that satisfy a condition pick the items that satisfy it.
pub proof fn lemma_positions_filter<A>(
    items: Seq<A>,
    p: spec_fn(int) -> bool,
    pred: spec_fn(A) -> bool,
)
    requires
        forall|k: int| 0 <= k < items.len() ==> #[trigger] p(k) == pred(items[k]),
    ensures
        index::positions(items.len(), p).len() == items.filter(pred).len(),
        forall|j: int|
            0 <= j < items.filter(pred).len() ==> items[#[trigger] index::positions(
                items.len(),
                p,
            )[j]] == items.filter(pred)[j],
    decreases items.len(),
{
    reveal(Seq::filter);
    if items.len() > 0 {
        let rest = items.drop_last();
        lemma_positions_filter(rest, p, pred);
        let last = items.len() - 1;
        assert(p(last) == pred(items[last]));
        let few = index::positions(rest.len(), p);
        index::lemma_positions(rest.len(), p);
        let all = index::positions(items.len(), p);
        let kept = items.filter(pred);
        assert forall|j: int| 0 <= j < kept.len() implies items[#[trigger] all[j]] == kept[j] by {
            if j < few.len() {
                assert(all[j] == few[j]);
                assert(rest[few[j]] == rest.filter(pred)[j]);
            }
        }
    }
}

/// A flat map has as many results as all outputs together.
pub proof fn law_flat_map_counts_every_output<T, U>(
    source: Seq<TimestampedValue<T>>,
    outputs: Seq<Vec<U>>,
    result: Seq<TimestampedValue<U>>,
)
    requires
        outputs.len() == source.len(),
        result == transforms::expansion(source, outputs, outputs.len()),
    ensures
        result.len() == outputs.fold_left(0int, |sum: int, output: Vec<U>| sum + output@.len()),
{
    let count = |sum: int, output: Vec<U>| sum + output@.len();
    lemma_expansion_len(source, outputs, outputs.len(), count);
    assert(outputs.take(outputs.len() as int) =~= outputs);
}

/// A flat map loses nothing: output `j` of element `i` stands after all outputs
/// of the elements before and the earlier outputs of its own, at the event time
/// of the element.
pub proof fn law_flat_map_keeps_every_output<T, U>(
    source: Seq<TimestampedValue<T>>,
    outputs: Seq<Vec<U>>,
    result: Seq<TimestampedValue<U>>,
    i: int,
    j: int,
)
    requires
        outputs.len() == source.len(),
        result == transforms::expansion(source, outputs, outputs.len()),
        0 <= i < outputs.len(),
        0 <= j < outputs[i]@.len(),
    ensures
        ({
            let before = outputs.take(i).fold_left(
                0int,
                |sum: int, output: Vec<U>| sum + output@.len(),
            );
            &&& 0 <= before + j < result.len()
            &&& result[before + j].value == outputs[i]@[j]
            &&& result[before + j].timestamp == source[i].timestamp
        }),
{
    let count = |sum: int, output: Vec<U>| sum + output@.len();
    lemma_output_place(source, outputs, outputs.len(), count, i, j);
}

proof fn lemma_expansion_len<T, U>(
    source: Seq<TimestampedValue<T>>,
    outputs: Seq<Vec<U>>,
    n: nat,
    count: spec_fn(int, Vec<U>) -> int,
)
    requires
        n <= source.len(),
        n <= outputs.len(),
        forall|sum: int, output: Vec<U>| #[trigger] count(sum, output) == sum + output@.len(),
    ensures
        transforms::expansion(source, outputs, n).len() == outputs.take(n as int).fold_left(
            0int,
            count,
        ),
    decreases n,
{
    if n > 0 {
        lemma_expansion_len(source, outputs, (n - 1) as nat, count);
        assert(outputs.take(n as int).drop_last() =~= outputs.take(n - 1));
        assert(outputs.take(n as int).last() == outputs[n - 1]);
    }
}

proof fn lemma_output_place<T, U>(
    source: Seq<TimestampedValue<T>>,
    outputs: Seq<Vec<U>>,
    n: nat,
    count: spec_fn(int, Vec<U>) -> int,
    i: int,
    j: int,
)
    requires
        n <= source.len(),
        n <= outputs.len(),
        forall|sum: int, output: Vec<U>| #[trigger] count(sum, output) == sum + output@.len(),
        0 <= i < n,
        0 <= j < outputs[i]@.len(),
    ensures
        ({
            let at = outputs.take(i).fold_left(0int, count) + j;
            let all = transforms::expansion(source, outputs, n);
            &&& 0 <= at < all.len()
            &&& all[at].value == outputs[i]@[j]
            &&& all[at].timestamp == source[i].timestamp
        }),
    decreases n,
{
    let before = transforms::expansion(source, outputs, (n - 1) as nat);
    let at = outputs.take(i).fold_left(0int, count) + j;
    lemma_expansion_len(source, outputs, (n - 1) as nat, count);
    if i < n - 1 {
        lemma_output_place(source, outputs, (n - 1) as nat, count, i, j);
        assert(transforms::expansion(source, outputs, n)[at] == before[at]);
    } else {
        assert(at == before.len() + j);
    }
}

/// A filter keeps a copy of every element that satisfies the predicate, in their
/// order, and nothing else.
pub proof fn law_filter_keeps_what_satisfies<T: Clone>(
    source: Seq<TimestampedValue<T>>,
    kept: spec_fn(int) -> bool,
    result: Seq<TimestampedValue<T>>,
)
    requires
        collection::gathers(source, index::positions(source.len(), kept), result),
    ensures
        ({
            let places = Seq::new(source.len(), |i: int| i).filter(kept);
            &&& result.len() == places.len()
            &&& forall|j: int|
                #![trigger result[j]]
                0 <= j < result.len() ==> cloned(source[places[j]].value, result[j].value)
                    && result[j].timestamp == source[places[j]].timestamp
        }),
{
    let all = Seq::new(source.len(), |i: int| i);
    let picked = index::positions(source.len(), kept);
    lemma_positions_filter(all, kept, kept);
    index::lemma_positions(source.len(), kept);
    assert forall|j: int| 0 <= j < result.len() implies picked[j] == all.filter(kept)[j] by {
        assert(all[picked[j]] == picked[j]);
    }
    assert forall|j: int|
        #![trigger result[j]]
        0 <= j < result.len() implies cloned(source[all.filter(kept)[j]].value, result[j].value)
        && result[j].timestamp == source[all.filter(kept)[j]].timestamp by {
        assert(collection::clone_of(source[picked[j]], result[j]));
    }
}

/// The positions of a key pick the elements that have it.
proof fn lemma_key_filter<K: View, V>(elements: Seq<TimestampedValue<(K, V)>>, key: K::V)
    ensures
        ({
            let picked = groups::key_positions(groups::keys(elements), key);
            let mine = elements.filter(|e: TimestampedValue<(K, V)>| e.value.0@ == key);
            &&& picked.len() == mine.len()
            &&& forall|j: int|
                0 <= j < picked.len() ==> 0 <= #[trigger] picked[j] < elements.len()
                    && elements[picked[j]] == mine[j]
        }),
{
    let keys = groups::keys(elements);
    let picked = groups::key_positions(keys, key);
    let mine = elements.filter(|e: TimestampedValue<(K, V)>| e.value.0@ == key);
    let p = |k: int| keys[k] == key;
    lemma_positions_filter(elements, p, |e: TimestampedValue<(K, V)>| e.value.0@ == key);
    groups::lemma_key_positions(keys, key);
    assert(picked =~= index::positions(elements.len(), p));
}

/// Where the different items of a sequence stand in `first_seen`: each item has
/// a place, and an item occurs after all that have an earlier place.
proof fn lemma_first_seen_order<A>(items: Seq<A>)
    ensures
        forall|g: int, h: int, k: int|
            0 <= g < h < groups::first_seen(items).len() && 0 <= k < items.len() && (
            #[trigger] items[k]) == #[trigger] groups::first_seen(items)[h]
                ==> #[trigger] items.take(k).contains(groups::first_seen(items)[g]),
    decreases items.len(),
{
    if items.len() > 0 {
        let rest = items.drop_last();
        let last = items.last();
        let (few, seen) = (groups::first_seen(rest), groups::first_seen(items));
        lemma_first_seen_order(rest);
        groups::lemma_first_seen(rest);
        assert forall|g: int, h: int, k: int|
            0 <= g < h < seen.len() && 0 <= k < items.len() && (#[trigger] items[k])
                == #[trigger] seen[h] implies #[trigger] items.take(k).contains(seen[g]) by {
            assert(seen[g] == few[g]);
            if k < rest.len() {
                assert(rest[k] == items[k]);
                assert(rest.take(k) =~= items.take(k));
                if h < few.len() {
                    assert(rest.take(k).contains(few[g]));
                } else {
                    assert(rest.contains(last));
                }
            } else {
                assert(items.take(k) =~= rest);
                assert(few.contains(few[g]));
                assert(rest.contains(few[g]));
            }
        }
    }
}

/// Groups come in the order in which their keys first occur: before any element
/// with the key of a group stands one with the key of each earlier group.
pub proof fn law_groups_come_in_order<K: View, V: Clone>(
    elements: Seq<TimestampedValue<(K, V)>>,
    entries: Seq<(K, Vec<TimestampedValue<V>>)>,
    g: int,
    h: int,
    k: int,
)
    requires
        groups::groups_by_key(elements, entries),
        0 <= g < h < entries.len(),
        0 <= k < elements.len(),
        elements[k].value.0@ == entries[h].0@,
    ensures
        exists|m: int| 0 <= m < k && (#[trigger] elements[m]).value.0@ == entries[g].0@,
{
    let keys = groups::keys(elements);
    let seen = groups::first_seen(keys);
    lemma_first_seen_order(keys);
    assert(entries[g].0@ == seen[g] && entries[h].0@ == seen[h]);
    assert(keys[k] == seen[h]);
    assert(keys.take(k).contains(seen[g]));
    let m = choose|m: int| 0 <= m < keys.take(k).len() && keys.take(k)[m] == seen[g];
    assert(elements[m].value.0@ == keys[m]);
}

/// Grouping by key: no two groups have the same key, every element finds its key
/// among the groups, and the group of a key holds copies of exactly the values of
/// that key, in the order of the collection and at their event times.
pub proof fn law_groups_hold_the_values_of_their_keys<K: View, V: Clone>(
    elements: Seq<TimestampedValue<(K, V)>>,
    entries: Seq<(K, Vec<TimestampedValue<V>>)>,
)
    requires
        groups::groups_by_key(elements, entries),
    ensures
        forall|g: int, h: int|
            0 <= g < h < entries.len() ==> (#[trigger] entries[g]).0@ != (
            #[trigger] entries[h]).0@,
        forall|k: int|
            0 <= k < elements.len() ==> exists|g: int|
                0 <= g < entries.len() && (#[trigger] entries[g]).0@ == (
                #[trigger] elements[k]).value.0@,
        forall|g: int|
            0 <= g < entries.len() ==> {
                let mine = elements.filter(
                    |e: TimestampedValue<(K, V)>| e.value.0@ == entries[g].0@,
                );
                &&& (#[trigger] entries[g]).1@.len() == mine.len()
                &&& mine.len() > 0
                &&& forall|j: int|
                    0 <= j < mine.len() ==> cloned(
                        mine[j].value.1,
                        (#[trigger] entries[g].1@[j]).value,
                    ) && entries[g].1@[j].timestamp == mine[j].timestamp
            },
{
    let keys = groups::keys(elements);
    let seen = groups::first_seen(keys);
    groups::lemma_first_seen(keys);
    lemma_first_seen_order(keys);
    assert forall|g: int, h: int| 0 <= g < h < entries.len() implies (#[trigger] entries[g]).0@ != (
    #[trigger] entries[h]).0@ by {
        assert(entries[g].0@ == seen[g] && entries[h].0@ == seen[h]);
    }
    assert forall|k: int| 0 <= k < elements.len() implies exists|g: int|
        0 <= g < entries.len() && (#[trigger] entries[g]).0@ == (
        #[trigger] elements[k]).value.0@ by {
        assert(keys[k] == elements[k].value.0@);
        assert(keys.contains(keys[k]));
        assert(seen.contains(keys[k]));
        let g = choose|g: int| 0 <= g < seen.len() && seen[g] == keys[k];
        assert(entries[g].0@ == seen[g]);
    }
    assert forall|g: int| 0 <= g < entries.len() implies {
        let mine = elements.filter(|e: TimestampedValue<(K, V)>| e.value.0@ == entries[g].0@);
        &&& (#[trigger] entries[g]).1@.len() == mine.len()
        &&& mine.len() > 0
        &&& forall|j: int|
            0 <= j < mine.len() ==> cloned(mine[j].value.1, (#[trigger] entries[g].1@[j]).value)
                && entries[g].1@[j].timestamp == mine[j].timestamp
    } by {
        let key = entries[g].0@;
        assert(key == seen[g]);
        lemma_key_filter(elements, key);
        let picked = groups::key_positions(keys, key);
        assert(groups::gathers_values(elements, picked, entries[g].1@));
        let mine = elements.filter(|e: TimestampedValue<(K, V)>| e.value.0@ == entries[g].0@);
        assert(mine == elements.filter(|e: TimestampedValue<(K, V)>| e.value.0@ == key));
        assert forall|j: int| 0 <= j < mine.len() implies cloned(
            mine[j].value.1,
            (#[trigger] entries[g].1@[j]).value,
        ) && entries[g].1@[j].timestamp == mine[j].timestamp by {
            assert(elements[picked[j]] == mine[j]);
        }
        lemma_key_occurs(keys, g);
    }
}

proof fn lemma_key_occurs<A>(keys: Seq<A>, g: int)
    requires
        0 <= g < groups::first_seen(keys).len(),
    ensures
        groups::key_positions(keys, groups::first_seen(keys)[g]).len() > 0,
{
    let seen = groups::first_seen(keys);
    groups::lemma_first_seen(keys);
    groups::lemma_key_positions(keys, seen[g]);
    assert(seen.contains(seen[g]));
    let k = choose|k: int| 0 <= k < keys.len() && keys[k] == seen[g];
    assert(groups::key_positions(keys, seen[g]).contains(k));
}

/// Combining per key gives one result for each key that occurs: no two results
/// have the same key, and the keys of results and elements are the same.
pub proof fn law_combined_keys_are_those_of_the_elements<K: View, V: Clone, R, F: Fn(&[V]) -> R>(
    elements: Seq<TimestampedValue<(K, V)>>,
    combiner: F,
    results: Seq<TimestampedValue<(K, R)>>,
    key: K::V,
)
    requires
        results.len() == groups::first_seen(groups::keys(elements)).len(),
        forall|g: int|
            0 <= g < results.len() ==> transforms::combines(
                elements,
                groups::first_seen(groups::keys(elements))[g],
                combiner,
                #[trigger] results[g],
            ),
    ensures
        forall|g: int, h: int|
            0 <= g < h < results.len() ==> (#[trigger] results[g]).value.0@ != (
            #[trigger] results[h]).value.0@,
        (exists|g: int| 0 <= g < results.len() && (#[trigger] results[g]).value.0@ == key) <==> (
        exists|k: int| 0 <= k < elements.len() && (#[trigger] elements[k]).value.0@ == key),
{
    let keys = groups::keys(elements);
    let seen = groups::first_seen(keys);
    groups::lemma_first_seen(keys);
    assert forall|g: int| 0 <= g < results.len() implies (#[trigger] results[g]).value.0@
        == seen[g] by {
        assert(transforms::combines(elements, seen[g], combiner, results[g]));
    }
    if exists|g: int| 0 <= g < results.len() && (#[trigger] results[g]).value.0@ == key {
        let g = choose|g: int| 0 <= g < results.len() && (#[trigger] results[g]).value.0@ == key;
        assert(seen.contains(seen[g]));
        let k = choose|k: int| 0 <= k < keys.len() && keys[k] == key;
        assert(elements[k].value.0@ == key);
    }
    if exists|k: int| 0 <= k < elements.len() && (#[trigger] elements[k]).value.0@ == key {
        let k = choose|k: int| 0 <= k < elements.len() && (#[trigger] elements[k]).value.0@ == key;
        assert(keys[k] == key);
        assert(keys.contains(key));
        assert(seen.contains(key));
        let g = choose|g: int| 0 <= g < seen.len() && seen[g] == key;
        assert(results[g].value.0@ == key);
    }
}

/// Results come in the order in which their keys first occur: before any element
/// with the key of a result stands one with the key of each earlier result.
pub proof fn law_combined_values_come_in_order<K: View, V: Clone, R, F: Fn(&[V]) -> R>(
    elements: Seq<TimestampedValue<(K, V)>>,
    combiner: F,
    results: Seq<TimestampedValue<(K, R)>>,
    g: int,
    h: int,
    k: int,
)
    requires
        results.len() == groups::first_seen(groups::keys(elements)).len(),
        forall|g: int|
            0 <= g < results.len() ==> transforms::combines(
                elements,
                groups::first_seen(groups::keys(elements))[g],
                combiner,
                #[trigger] results[g],
            ),
        0 <= g < h < results.len(),
        0 <= k < elements.len(),
        elements[k].value.0@ == results[h].value.0@,
    ensures
        exists|m: int| 0 <= m < k && (#[trigger] elements[m]).value.0@ == results[g].value.0@,
{
    let keys = groups::keys(elements);
    let seen = groups::first_seen(keys);
    lemma_first_seen_order(keys);
    assert(transforms::combines(elements, seen[g], combiner, results[g]));
    assert(transforms::combines(elements, seen[h], combiner, results[h]));
    assert(keys[k] == seen[h]);
    assert(keys.take(k).contains(seen[g]));
    let m = choose|m: int| 0 <= m < keys.take(k).len() && keys.take(k)[m] == seen[g];
    assert(elements[m].value.0@ == keys[m]);
}

/// A combined value is what the combiner gives for clones of exactly the values
/// of its key, in the order of the collection.
pub proof fn law_combiner_sees_the_values_of_its_key<K: View, V: Clone, R, F: Fn(&[V]) -> R>(
    elements: Seq<TimestampedValue<(K, V)>>,
    key: K::V,
    combiner: F,
    result: TimestampedValue<(K, R)>,
)
    requires
        transforms::combines(elements, key, combiner, result),
    ensures
        result.value.0@ == key,
        ({
            let mine = elements.filter(|e: TimestampedValue<(K, V)>| e.value.0@ == key);
            exists|values: &[V]|
                {
                    &&& #[trigger] call_ensures(combiner, (values,), result.value.1)
                    &&& values@.len() == mine.len()
                    &&& forall|j: int|
                        0 <= j < mine.len() ==> cloned(mine[j].value.1, #[trigger] values@[j])
                }
        }),
{
    let picked = groups::key_positions(groups::keys(elements), key);
    let mine = elements.filter(|e: TimestampedValue<(K, V)>| e.value.0@ == key);
    lemma_key_filter(elements, key);
    let values = choose|values: &[V]|
        transforms::clones_values(elements, picked, values@) && #[trigger] call_ensures(
            combiner,
            (values,),
            result.value.1,
        );
    assert(call_ensures(combiner, (values,), result.value.1));
    assert forall|j: int| 0 <= j < mine.len() implies cloned(
        mine[j].value.1,
        #[trigger] values@[j],
    ) by {
        assert(elements[picked[j]] == mine[j]);
    }
}

/// A combined value is not later than any value of its key, and is at the event
/// time of the first that is as early. Only where all of these are NaNs, it is at
/// infinity.
pub proof fn law_combined_values_are_earliest<K: View, V: Clone, R, F: Fn(&[V]) -> R>(
    elements: Seq<TimestampedValue<(K, V)>>,
    key: K::V,
    combiner: F,
    result: TimestampedValue<(K, R)>,
)
    requires
        transforms::combines(elements, key, combiner, result),
    ensures
        result.value.0@ == key,
        forall|k: int|
            0 <= k < elements.len() && (#[trigger] elements[k]).value.0@ == key
                ==> elements[k].timestamp.nan() || result.timestamp.units()
                <= elements[k].timestamp.units(),
        (exists|k: int|
            {
                &&& 0 <= k < elements.len()
                &&& (#[trigger] elements[k]).value.0@ == key
                &&& !elements[k].timestamp.nan()
                &&& result.timestamp == elements[k].timestamp
                &&& forall|m: int|
                    0 <= m < k && (#[trigger] elements[m]).value.0@ == key
                        ==> elements[m].timestamp.nan() || elements[m].timestamp.units()
                        > result.timestamp.units()
            }) || (result.timestamp.bits == 0x7ff0_0000_0000_0000 && forall|k: int|
            0 <= k < elements.len() && (#[trigger] elements[k]).value.0@ == key
                ==> elements[k].timestamp.nan()),
{
    let keys = groups::keys(elements);
    let picked = groups::key_positions(keys, key);
    let times = transforms::picked_times(elements, picked);
    groups::lemma_key_positions(keys, key);
    lemma_key_filter(elements, key);
    index::lemma_positions(keys.len(), |k: int| keys[k] == key);
    assert(transforms::is_earliest(times, result.timestamp));
    assert forall|k: int| 0 <= k < elements.len() && (#[trigger] elements[k]).value.0@ == key implies
        exists|a: int|
        0 <= a < picked.len() && #[trigger] picked[a] == k && times[a]
            == elements[k].timestamp by {
        assert(keys[k] == key);
        assert(picked.contains(k));
        let a = choose|a: int| 0 <= a < picked.len() && picked[a] == k;
        assert(times[a] == elements[picked[a]].timestamp);
    }
    if exists|j: int| transforms::first_least(times, j) && #[trigger] times[j] == result.timestamp {
        let j = choose|j: int|
            transforms::first_least(times, j) && #[trigger] times[j] == result.timestamp;
        let k = picked[j];
        assert(keys[k] == key && keys[k] == elements[k].value.0@);
        assert(times[j] == elements[k].timestamp);
        assert forall|m: int| 0 <= m < elements.len() && (#[trigger] elements[m]).value.0@
            == key implies elements[m].timestamp.nan() || result.timestamp.units()
            <= elements[m].timestamp.units() by {
            let a = choose|a: int|
                0 <= a < picked.len() && #[trigger] picked[a] == m && times[a]
                    == elements[m].timestamp;
            assert(times[a].nan() || times[a].units() >= times[j].units());
        }
        assert forall|m: int| 0 <= m < k && (#[trigger] elements[m]).value.0@ == key implies
            elements[m].timestamp.nan() || elements[m].timestamp.units()
            > result.timestamp.units() by {
            let a = choose|a: int|
                0 <= a < picked.len() && #[trigger] picked[a] == m && times[a]
                    == elements[m].timestamp;
            if a >= j {
                assert(picked[j] <= picked[a]);
            }
            assert(times[a].nan() || times[a].units() > times[j].units());
        }
        assert(elements[k].value.0@ == key && !elements[k].timestamp.nan());
    } else {
        assert forall|k: int| 0 <= k < elements.len() && (#[trigger] elements[k]).value.0@
            == key implies elements[k].timestamp.nan() by {
            let a = choose|a: int|
                0 <= a < picked.len() && #[trigger] picked[a] == k && times[a]
                    == elements[k].timestamp;
            assert(times[a].nan());
        }
    }
}

} // verus!
