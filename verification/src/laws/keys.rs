use vstd::prelude::*;

use crate::collection;
use crate::collection::TimestampedValue;
use crate::groups;
use crate::index;
use crate::transforms;

verus! {

/// Strings and integers can be keys: their `==` decides equality of contents
/// and their clones are equal.
pub proof fn law_strings_and_integers_are_keys()
    ensures
        groups::lawful_key::<String>(),
        groups::lawful_key::<i64>(),
        groups::lawful_key::<u64>(),
        groups::lawful_key::<i32>(),
        groups::lawful_key::<u32>(),
        groups::lawful_key::<usize>(),
{
}

/// Grouping puts every element into exactly one group, that of its key.
pub proof fn law_grouping_partitions<A>(keys: Seq<A>, k: int)
    requires
        0 <= k < keys.len(),
    ensures
        exists|g: int|
            0 <= g < groups::first_seen(keys).len() && groups::key_positions(
                keys,
                #[trigger] groups::first_seen(keys)[g],
            ).contains(k),
        forall|g: int|
            0 <= g < groups::first_seen(keys).len() ==> (groups::key_positions(
                keys,
                #[trigger] groups::first_seen(keys)[g],
            ).contains(k) <==> groups::first_seen(keys)[g] == keys[k]),
        forall|g: int, h: int|
            0 <= g < h < groups::first_seen(keys).len() ==> groups::first_seen(keys)[g]
                != groups::first_seen(keys)[h],
{
    let seen = groups::first_seen(keys);
    groups::lemma_first_seen(keys);
    assert forall|g: int| 0 <= g < seen.len() implies (groups::key_positions(
        keys,
        #[trigger] seen[g],
    ).contains(k) <==> seen[g] == keys[k]) by {
        groups::lemma_key_positions(keys, seen[g]);
        let picked = groups::key_positions(keys, seen[g]);
        if picked.contains(k) {
            let j = choose|j: int| 0 <= j < picked.len() && picked[j] == k;
            assert(keys[picked[j]] == seen[g]);
        }
    }
    assert(keys.contains(keys[k]));
    assert(seen.contains(keys[k]));
    let g = choose|g: int| 0 <= g < seen.len() && seen[g] == keys[k];
    assert(groups::key_positions(keys, seen[g]).contains(k));
}

/// Combining gives one result for each group: it has the key of the group and
/// the earliest event time in it, and the combiner was handed clones of the
/// values in the group, at least one. Where clones are exact, these are the
/// values of the group.
pub proof fn law_combining_follows_grouping<K: View, V: Clone, R, F: Fn(&[V]) -> R>(
    elements: Seq<TimestampedValue<(K, V)>>,
    entries: Seq<(K, Vec<TimestampedValue<V>>)>,
    combiner: F,
    results: Seq<TimestampedValue<(K, R)>>,
)
    requires
        groups::groups_by_key(elements, entries),
        results.len() == groups::first_seen(groups::keys(elements)).len(),
        forall|g: int|
            0 <= g < results.len() ==> transforms::combines(
                elements,
                groups::first_seen(groups::keys(elements))[g],
                combiner,
                #[trigger] results[g],
            ),
    ensures
        results.len() == entries.len(),
        forall|g: int|
            #![trigger results[g]]
            #![trigger entries[g]]
            0 <= g < results.len() ==> {
                &&& results[g].value.0@ == entries[g].0@
                &&& transforms::is_earliest(
                    collection::times(entries[g].1@),
                    results[g].timestamp,
                )
                &&& exists|values: &[V]|
                    {
                        &&& #[trigger] call_ensures(combiner, (values,), results[g].value.1)
                        &&& values@.len() > 0
                        &&& clones_same(
                            elements,
                            groups::key_positions(groups::keys(elements), entries[g].0@),
                            values@,
                            entries[g].1@,
                        )
                        &&& collection::exact_clones::<V>() ==> values@ == group_values(
                            entries[g].1@,
                        )
                    }
            },
{
    let keys = groups::keys(elements);
    let seen = groups::first_seen(keys);
    assert forall|g: int|
        #![trigger results[g]]
        #![trigger entries[g]]
        0 <= g < results.len() implies {
        &&& results[g].value.0@ == entries[g].0@
        &&& transforms::is_earliest(collection::times(entries[g].1@), results[g].timestamp)
        &&& exists|values: &[V]|
            {
                &&& #[trigger] call_ensures(combiner, (values,), results[g].value.1)
                &&& values@.len() > 0
                &&& clones_same(
                    elements,
                    groups::key_positions(keys, entries[g].0@),
                    values@,
                    entries[g].1@,
                )
                &&& collection::exact_clones::<V>() ==> values@ == group_values(entries[g].1@)
            }
    } by {
        assert(transforms::combines(elements, seen[g], combiner, results[g]));
        let picked = groups::key_positions(keys, seen[g]);
        assert(entries[g].0@ == seen[g]);
        assert(groups::gathers_values(elements, picked, entries[g].1@));
        assert(collection::times(entries[g].1@) =~= transforms::picked_times(elements, picked));
        let values = choose|values: &[V]|
            transforms::clones_values(elements, picked, values@) && #[trigger] call_ensures(
                combiner,
                (values,),
                results[g].value.1,
            );
        assert(call_ensures(combiner, (values,), results[g].value.1));
        assert(clones_same(elements, picked, values@, entries[g].1@));
        assert(picked.len() > 0) by {
            groups::lemma_first_seen(keys);
            groups::lemma_key_positions(keys, seen[g]);
            assert(seen.contains(seen[g]));
            let k = choose|k: int| 0 <= k < keys.len() && keys[k] == seen[g];
            assert(picked.contains(k));
        }
        if collection::exact_clones::<V>() {
            assert(values@ =~= group_values(entries[g].1@)) by {
                assert forall|j: int| 0 <= j < picked.len() implies values@[j]
                    == entries[g].1@[j].value by {
                    let value = elements[picked[j]].value.1;
                    assert(cloned(value, values@[j]) && cloned(value, entries[g].1@[j].value));
                }
            }
        }
    }
}

/// Whether `values` and the values of a group are clones of the same values,
/// one by one: those at the `picked` positions.
pub open spec fn clones_same<K, V: Clone>(
    elements: Seq<TimestampedValue<(K, V)>>,
    picked: Seq<int>,
    values: Seq<V>,
    group: Seq<TimestampedValue<V>>,
) -> bool {
    &&& transforms::clones_values(elements, picked, values)
    &&& groups::gathers_values(elements, picked, group)
}

/// The values of a group without their event times.
pub open spec fn group_values<V>(group: Seq<TimestampedValue<V>>) -> Seq<V> {
    group.map_values(|element: TimestampedValue<V>| element.value)
}

/// The values of a key with their event times, in the order of the elements.
pub open spec fn key_values<K: View, V>(
    elements: Seq<TimestampedValue<(K, V)>>,
    key: K::V,
) -> Seq<TimestampedValue<V>> {
    groups::key_positions(groups::keys(elements), key).map_values(
        |k: int|
            TimestampedValue { value: elements[k].value.1, timestamp: elements[k].timestamp },
    )
}

/// Joining collections joins their groups: the keys are those of either part,
/// and under each key stand the values of the first part followed by those of
/// the second.
pub proof fn law_joining_joins_groups<K: View, V>(
    first: Seq<TimestampedValue<(K, V)>>,
    second: Seq<TimestampedValue<(K, V)>>,
    key: K::V,
)
    ensures
        groups::first_seen(groups::keys(first + second)).contains(key) <==> groups::first_seen(
            groups::keys(first),
        ).contains(key) || groups::first_seen(groups::keys(second)).contains(key),
        key_values(first + second, key) == key_values(first, key) + key_values(second, key),
{
    let (a, b) = (groups::keys(first), groups::keys(second));
    let both = groups::keys(first + second);
    assert(both =~= a + b);
    groups::lemma_first_seen(a);
    groups::lemma_first_seen(b);
    groups::lemma_first_seen(both);
    assert(both.contains(key) <==> a.contains(key) || b.contains(key)) by {
        if a.contains(key) {
            let k = choose|k: int| 0 <= k < a.len() && a[k] == key;
            assert(both[k] == key);
        }
        if b.contains(key) {
            let k = choose|k: int| 0 <= k < b.len() && b[k] == key;
            assert(both[k + a.len()] == key);
        }
        if both.contains(key) {
            let k = choose|k: int| 0 <= k < both.len() && both[k] == key;
            if k < a.len() {
                assert(a[k] == key);
            } else {
                assert(b[k - a.len()] == key);
            }
        }
    }
    groups::lemma_key_positions_join(a, b, key);
    groups::lemma_key_positions(a, key);
    groups::lemma_key_positions(b, key);
    assert(key_values(first + second, key) =~= key_values(first, key) + key_values(second, key));
}

/// The group of a key among entries, with nothing in it where there is none.
pub open spec fn group_of<K: View, V>(
    entries: Seq<(K, Vec<TimestampedValue<V>>)>,
    key: K::V,
) -> Seq<TimestampedValue<V>> {
    if has_group(entries, key) {
        entries[choose|g: int| 0 <= g < entries.len() && (#[trigger] entries[g]).0@ == key].1@
    } else {
        Seq::empty()
    }
}

/// Whether entries hold a group for a key.
pub open spec fn has_group<K: View, V>(
    entries: Seq<(K, Vec<TimestampedValue<V>>)>,
    key: K::V,
) -> bool {
    exists|g: int| 0 <= g < entries.len() && (#[trigger] entries[g]).0@ == key
}

/// Whether `copies` are clones of `items` one by one, with their event times.
pub open spec fn clones_each<V: Clone>(
    items: Seq<TimestampedValue<V>>,
    copies: Seq<TimestampedValue<V>>,
) -> bool {
    &&& copies.len() == items.len()
    &&& forall|j: int|
        #![trigger items[j]]
        #![trigger copies[j]]
        0 <= j < items.len() ==> collection::clone_of(items[j], copies[j])
}

/// Exact clones are equal to what they were cloned from.
proof fn lemma_exact<V: Clone>(
    items: Seq<TimestampedValue<V>>,
    copies: Seq<TimestampedValue<V>>,
)
    requires
        clones_each(items, copies),
        collection::exact_clones::<V>(),
    ensures
        copies == items,
{
    assert forall|j: int| 0 <= j < items.len() implies copies[j] == items[j] by {
        assert(collection::clone_of(items[j], copies[j]));
    }
    assert(copies =~= items);
}

/// Grouping has a group for each key that occurs, with clones of the values of
/// the key in it.
proof fn lemma_group_of<K: View, V: Clone>(
    elements: Seq<TimestampedValue<(K, V)>>,
    entries: Seq<(K, Vec<TimestampedValue<V>>)>,
    key: K::V,
)
    requires
        groups::groups_by_key(elements, entries),
    ensures
        has_group(entries, key) <==> groups::first_seen(groups::keys(elements)).contains(key),
        clones_each(key_values(elements, key), group_of(entries, key)),
{
    let keys = groups::keys(elements);
    let seen = groups::first_seen(keys);
    let picked = groups::key_positions(keys, key);
    if has_group(entries, key) {
        let g = choose|g: int| 0 <= g < entries.len() && (#[trigger] entries[g]).0@ == key;
        assert(entries[g].0@ == seen[g]);
        assert(seen.contains(key));
        assert(groups::gathers_values(elements, picked, entries[g].1@));
        assert(group_of(entries, key) == entries[g].1@);
        assert forall|j: int| 0 <= j < picked.len() implies collection::clone_of(
            key_values(elements, key)[j],
            entries[g].1@[j],
        ) by {
            assert(cloned(elements[picked[j]].value.1, entries[g].1@[j].value));
        }
    }
    if seen.contains(key) {
        let g = choose|g: int| 0 <= g < seen.len() && seen[g] == key;
        assert(entries[g].0@ == key);
    } else {
        groups::lemma_first_seen(keys);
        groups::lemma_key_positions(keys, key);
        assert(picked.len() == 0) by {
            if picked.len() > 0 {
                assert(keys[picked[0]] == key);
                assert(keys.contains(key));
            }
        }
    }
}

/// Grouping a joined collection: there is a group for each key of either part.
/// That group, and the group of the first part followed by that of the second,
/// hold clones of the same values, one by one and at the same event times. Where
/// clones are exact the two are equal.
pub proof fn law_grouping_a_join<K: View, V: Clone>(
    first: Seq<TimestampedValue<(K, V)>>,
    first_groups: Seq<(K, Vec<TimestampedValue<V>>)>,
    second: Seq<TimestampedValue<(K, V)>>,
    second_groups: Seq<(K, Vec<TimestampedValue<V>>)>,
    joined_groups: Seq<(K, Vec<TimestampedValue<V>>)>,
    key: K::V,
)
    requires
        groups::groups_by_key(first, first_groups),
        groups::groups_by_key(second, second_groups),
        groups::groups_by_key(first + second, joined_groups),
    ensures
        has_group(joined_groups, key) <==> has_group(first_groups, key) || has_group(
            second_groups,
            key,
        ),
        ({
            let parts = group_of(first_groups, key) + group_of(second_groups, key);
            let values = key_values(first, key) + key_values(second, key);
            &&& clones_each(values, group_of(joined_groups, key))
            &&& clones_each(values, parts)
            &&& collection::exact_clones::<V>() ==> group_of(joined_groups, key) == parts
        }),
{
    let parts = group_of(first_groups, key) + group_of(second_groups, key);
    let (a, b) = (key_values(first, key), key_values(second, key));
    law_joining_joins_groups(first, second, key);
    lemma_group_of(first, first_groups, key);
    lemma_group_of(second, second_groups, key);
    lemma_group_of(first + second, joined_groups, key);
    assert forall|j: int| 0 <= j < (a + b).len() implies collection::clone_of(
        (a + b)[j],
        parts[j],
    ) by {
        if j < a.len() {
            assert(collection::clone_of(a[j], group_of(first_groups, key)[j]));
        } else {
            assert(collection::clone_of(b[j - a.len()], group_of(second_groups, key)[j - a.len()]));
        }
    }
    if collection::exact_clones::<V>() {
        lemma_exact(a + b, parts);
        lemma_exact(a + b, group_of(joined_groups, key));
    }
}

/// Filtering what a filter has kept keeps all of it: where the predicate has one
/// answer for a value and its clones, the second result holds a clone of each
/// element of the first. Where clones are exact, filtering twice is filtering
/// once.
pub proof fn law_filtering_twice_is_once<T: Clone, P: Fn(&T) -> bool>(
    source: Seq<TimestampedValue<T>>,
    predicate: P,
    kept: spec_fn(int) -> bool,
    once: Seq<TimestampedValue<T>>,
    kept_again: spec_fn(int) -> bool,
    twice: Seq<TimestampedValue<T>>,
)
    requires
        forall|x: &T, y: &T, first: bool, second: bool|
            (x == y || cloned(*x, *y)) && #[trigger] call_ensures(predicate, (x,), first)
                && #[trigger] call_ensures(predicate, (y,), second) ==> first == second,
        forall|i: int|
            0 <= i < source.len() ==> call_ensures(
                predicate,
                (&(#[trigger] source[i]).value,),
                kept(i),
            ),
        collection::gathers(source, index::positions(source.len(), kept), once),
        forall|i: int|
            0 <= i < once.len() ==> call_ensures(
                predicate,
                (&(#[trigger] once[i]).value,),
                kept_again(i),
            ),
        collection::gathers(once, index::positions(once.len(), kept_again), twice),
    ensures
        clones_each(once, twice),
        collection::exact_clones::<T>() ==> twice == once,
{
    let picked = index::positions(source.len(), kept);
    index::lemma_positions(source.len(), kept);
    assert forall|i: int| 0 <= i < once.len() implies #[trigger] kept_again(i) by {
        let k = picked[i];
        assert(collection::clone_of(source[k], once[i]));
        assert(call_ensures(predicate, (&source[k].value,), kept(k)));
        assert(call_ensures(predicate, (&once[i].value,), kept_again(i)));
    }
    lemma_all_positions(once.len(), kept_again);
    let again = index::positions(once.len(), kept_again);
    assert forall|j: int| 0 <= j < once.len() implies collection::clone_of(once[j], twice[j]) by {
        assert(again[j] == j);
    }
    if collection::exact_clones::<T>() {
        lemma_exact(once, twice);
    }
}

/// A condition that always holds has every position.
proof fn lemma_all_positions(n: nat, p: spec_fn(int) -> bool)
    requires
        forall|k: int| 0 <= k < n ==> #[trigger] p(k),
    ensures
        index::positions(n, p) == Seq::new(n, |k: int| k),
    decreases n,
{
    if n > 0 {
        lemma_all_positions((n - 1) as nat, p);
    }
    assert(index::positions(n, p) =~= Seq::new(n, |k: int| k));
}

/// Expanding every value to exactly one value is mapping it.
pub proof fn law_single_outputs_are_a_map<T, U, F: Fn(&T) -> Vec<U>, G: Fn(&T) -> U>(
    source: Seq<TimestampedValue<T>>,
    f: F,
    outputs: Seq<Vec<U>>,
    g: G,
    mapped: Seq<TimestampedValue<U>>,
)
    requires
        forall|x: &T, many: Vec<U>, one: U| #[trigger]
            call_ensures(f, (x,), many) && #[trigger] call_ensures(g, (x,), one) ==> many@
                == seq![one],
        outputs.len() == source.len(),
        forall|i: int|
            0 <= i < source.len() ==> call_ensures(
                f,
                (&(#[trigger] source[i]).value,),
                outputs[i],
            ),
        mapped.len() == source.len(),
        forall|i: int|
            0 <= i < source.len() ==> call_ensures(
                g,
                (&(#[trigger] source[i]).value,),
                mapped[i].value,
            ) && mapped[i].timestamp == source[i].timestamp,
    ensures
        transforms::expansion(source, outputs, outputs.len()) == mapped,
{
    assert forall|i: int| 0 <= i < source.len() implies (#[trigger] outputs[i])@
        == seq![mapped[i].value] by {
        assert(call_ensures(f, (&source[i].value,), outputs[i]));
        assert(call_ensures(g, (&source[i].value,), mapped[i].value));
    }
    lemma_single_outputs(source, outputs, mapped, source.len());
    assert(mapped.take(source.len() as int) =~= mapped);
}

proof fn lemma_single_outputs<T, U>(
    source: Seq<TimestampedValue<T>>,
    outputs: Seq<Vec<U>>,
    mapped: Seq<TimestampedValue<U>>,
    n: nat,
)
    requires
        n <= source.len(),
        outputs.len() == source.len(),
        mapped.len() == source.len(),
        forall|i: int|
            0 <= i < source.len() ==> (#[trigger] outputs[i])@ == seq![mapped[i].value],
        forall|i: int|
            0 <= i < source.len() ==> (#[trigger] mapped[i]).timestamp == source[i].timestamp,
    ensures
        transforms::expansion(source, outputs, n) == mapped.take(n as int),
    decreases n,
{
    if n > 0 {
        lemma_single_outputs(source, outputs, mapped, (n - 1) as nat);
        assert(outputs[n - 1]@ == seq![mapped[n - 1].value]);
        assert(mapped[n - 1].timestamp == source[n - 1].timestamp);
        assert(transforms::expansion(source, outputs, n) =~= mapped.take(n as int));
    } else {
        assert(transforms::expansion(source, outputs, n) =~= mapped.take(0));
    }
}

/// Expanding every value to a clone of itself or to nothing is filtering: the
/// result holds clones of the elements that the filter keeps and, where clones
/// are exact, is the filtered collection.
pub proof fn law_optional_outputs_are_a_filter<
    T: Clone,
    F: Fn(&T) -> Vec<T>,
    P: Fn(&T) -> bool,
>(
    source: Seq<TimestampedValue<T>>,
    f: F,
    outputs: Seq<Vec<T>>,
    predicate: P,
    kept: spec_fn(int) -> bool,
    filtered: Seq<TimestampedValue<T>>,
)
    requires
        forall|x: &T, some: Vec<T>, keep: bool| #[trigger]
            call_ensures(f, (x,), some) && #[trigger] call_ensures(predicate, (x,), keep)
                ==> some.len() == (if keep {
                1nat
            } else {
                0nat
            }) && (keep ==> cloned(*x, some[0])),
        outputs.len() == source.len(),
        forall|i: int|
            0 <= i < source.len() ==> call_ensures(
                f,
                (&(#[trigger] source[i]).value,),
                outputs[i],
            ),
        forall|i: int|
            0 <= i < source.len() ==> call_ensures(
                predicate,
                (&(#[trigger] source[i]).value,),
                kept(i),
            ),
        collection::gathers(source, index::positions(source.len(), kept), filtered),
    ensures
        collection::gathers(
            source,
            index::positions(source.len(), kept),
            transforms::expansion(source, outputs, outputs.len()),
        ),
        collection::exact_clones::<T>() ==> transforms::expansion(source, outputs, outputs.len())
            == filtered,
{
    assert forall|i: int| 0 <= i < source.len() implies (#[trigger] outputs[i]).len() == (if kept(
        i,
    ) {
        1nat
    } else {
        0nat
    }) && (kept(i) ==> cloned(source[i].value, outputs[i][0])) by {
        assert(call_ensures(f, (&source[i].value,), outputs[i]));
        assert(call_ensures(predicate, (&source[i].value,), kept(i)));
    }
    lemma_optional_outputs(source, outputs, kept, source.len());
    let picked = index::positions(source.len(), kept);
    let flat = transforms::expansion(source, outputs, outputs.len());
    if collection::exact_clones::<T>() {
        assert forall|j: int| 0 <= j < picked.len() implies flat[j] == filtered[j] by {
            assert(collection::clone_of(source[picked[j]], flat[j]));
            assert(collection::clone_of(source[picked[j]], filtered[j]));
        }
        assert(flat =~= filtered);
    }
}

proof fn lemma_optional_outputs<T: Clone>(
    source: Seq<TimestampedValue<T>>,
    outputs: Seq<Vec<T>>,
    kept: spec_fn(int) -> bool,
    n: nat,
)
    requires
        n <= source.len(),
        outputs.len() == source.len(),
        forall|i: int|
            0 <= i < source.len() ==> (#[trigger] outputs[i]).len() == (if kept(i) {
                1nat
            } else {
                0nat
            }) && (kept(i) ==> cloned(source[i].value, outputs[i][0])),
    ensures
        collection::gathers(
            source,
            index::positions(n, kept),
            transforms::expansion(source, outputs, n),
        ),
    decreases n,
{
    if n > 0 {
        lemma_optional_outputs(source, outputs, kept, (n - 1) as nat);
        let last = outputs[n - 1];
        assert(last.len() == (if kept(n - 1) {
            1nat
        } else {
            0nat
        }));
        let before = transforms::expansion(source, outputs, (n - 1) as nat);
        if kept(n - 1) {
            let copy = TimestampedValue { value: last[0], timestamp: source[n - 1].timestamp };
            assert(transforms::expansion(source, outputs, n) =~= before.push(copy));
        } else {
            assert(transforms::expansion(source, outputs, n) =~= before);
        }
    }
}

/// Every result of an expansion is one of the outputs for some element, at the
/// event time of that element.
pub proof fn law_expansion_inherits_times<T, U>(
    source: Seq<TimestampedValue<T>>,
    outputs: Seq<Vec<U>>,
    n: nat,
    m: int,
)
    requires
        n <= source.len(),
        n <= outputs.len(),
        0 <= m < transforms::expansion(source, outputs, n).len(),
    ensures
        exists|i: int, j: int|
            0 <= i < n && 0 <= j < outputs[i].len() && transforms::expansion(
                source,
                outputs,
                n,
            )[m].value == #[trigger] outputs[i][j] && transforms::expansion(
                source,
                outputs,
                n,
            )[m].timestamp == source[i].timestamp,
    decreases n,
{
    let all = transforms::expansion(source, outputs, n);
    let before = transforms::expansion(source, outputs, (n - 1) as nat);
    if m < before.len() {
        law_expansion_inherits_times(source, outputs, (n - 1) as nat, m);
        assert(all[m] == before[m]);
    } else {
        let j = m - before.len();
        assert(all[m].value == outputs[n - 1][j]);
    }
}

} // verus!
