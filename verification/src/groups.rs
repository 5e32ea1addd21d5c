use vstd::prelude::*;

use crate::collection::{PCollection, TimestampedValue};
use crate::index;

verus! {

/// Whether `==` on keys decides whether they have the same view, and cloning
/// a key keeps its view.
pub open spec fn lawful_key<K: View + Clone + PartialEq>() -> bool {
    &&& forall|a: K, b: K, same: bool| #[trigger]
        call_ensures(<K as PartialEq>::eq, (&a, &b), same) ==> same == (a@ == b@)
    &&& forall|a: K, b: K| #[trigger] cloned(a, b) ==> a@ == b@
}

/// The different items of a sequence, in the order of their first occurrence.
pub open spec fn first_seen<A>(items: Seq<A>) -> Seq<A>
    decreases items.len(),
{
    if items.len() == 0 {
        Seq::empty()
    } else {
        let rest = first_seen(items.drop_last());
        if items.drop_last().contains(items.last()) {
            rest
        } else {
            rest.push(items.last())
        }
    }
}

/// The keys of keyed elements.
pub open spec fn keys<K: View, V>(elements: Seq<TimestampedValue<(K, V)>>) -> Seq<K::V> {
    elements.map_values(|element: TimestampedValue<(K, V)>| element.value.0@)
}

/// The positions of a key.
pub open spec fn key_positions<A>(keys: Seq<A>, key: A) -> Seq<int> {
    index::positions(keys.len(), |k: int| keys[k] == key)
}

/// Whether `group` holds clones of the values at the `picked` positions, with
/// their event times.
pub open spec fn gathers_values<K, V: Clone>(
    elements: Seq<TimestampedValue<(K, V)>>,
    picked: Seq<int>,
    group: Seq<TimestampedValue<V>>,
) -> bool {
    &&& group.len() == picked.len()
    &&& forall|j: int|
        #![trigger group[j]]
        #![trigger picked[j]]
        0 <= j < picked.len() ==> cloned(elements[picked[j]].value.1, group[j].value)
            && group[j].timestamp == elements[picked[j]].timestamp
}

/// Whether `entries` groups keyed elements: one entry for each key, in the
/// order of first occurrence, with the values of that key in their order.
pub open spec fn groups_by_key<K: View, V: Clone>(
    elements: Seq<TimestampedValue<(K, V)>>,
    entries: Seq<(K, Vec<TimestampedValue<V>>)>,
) -> bool {
    let seen = first_seen(keys(elements));
    &&& entries.len() == seen.len()
    &&& forall|g: int|
        #![trigger entries[g]]
        #![trigger seen[g]]
        0 <= g < seen.len() ==> entries[g].0@ == seen[g] && gathers_values(
            elements,
            key_positions(keys(elements), seen[g]),
            entries[g].1@,
        )
}

/// Values grouped by key. No key occurs twice.
#[derive(Debug)]
pub struct KeyGroups<K, V> {
    pub entries: Vec<(K, Vec<TimestampedValue<V>>)>,
}

impl<K: View, V> KeyGroups<K, V> {
    /// No key occurs twice.
    pub open spec fn wf(self) -> bool {
        forall|g: int, h: int|
            0 <= g < h < self.entries.len() ==> (#[trigger] self.entries[g]).0@ != (
            #[trigger] self.entries[h]).0@
    }
}

impl<K: View + Clone + Eq, V> KeyGroups<K, V> {
    /// The number of keys.
    pub fn len(&self) -> (len: usize)
        ensures
            len == self.entries.len(),
    {
        self.entries.len()
    }

    /// The place of a key among the entries.
    fn find(&self, key: &K) -> (place: Option<usize>)
        requires
            lawful_key::<K>(),
        ensures
            match place {
                Some(g) => g < self.entries.len() && self.entries[g as int].0@ == key@,
                None => forall|g: int|
                    0 <= g < self.entries.len() ==> (#[trigger] self.entries[g]).0@ != key@,
            },
    {
        let mut g: usize = 0;
        while g < self.entries.len()
            invariant
                lawful_key::<K>(),
                g <= self.entries.len(),
                forall|h: int| 0 <= h < g ==> (#[trigger] self.entries[h]).0@ != key@,
            decreases self.entries.len() - g,
        {
            if self.entries[g].0 == *key {
                return Some(g);
            }
            g = g + 1;
        }
        None
    }

    /// The values of a key.
    pub fn get(&self, key: &K) -> (values: Option<&Vec<TimestampedValue<V>>>)
        requires
            lawful_key::<K>(),
        ensures
            match values {
                Some(values) => exists|g: int|
                    0 <= g < self.entries.len() && (#[trigger] self.entries[g]).0@ == key@
                        && self.entries[g].1 == values,
                None => forall|g: int|
                    0 <= g < self.entries.len() ==> (#[trigger] self.entries[g]).0@ != key@,
            },
    {
        match self.find(key) {
            Some(g) => Some(&self.entries[g].1),
            None => None,
        }
    }
}

impl<K: View + Clone + Eq, V: Clone> KeyGroups<K, V> {
    /// Groups keyed elements by key.
    pub(crate) fn group(input: &PCollection<(K, V)>) -> (groups: Self)
        requires
            lawful_key::<K>(),
        ensures
            groups.wf(),
            groups_by_key(input.elements@, groups.entries@),
    {
        let ghost elements = input.elements@;
        let mut groups: KeyGroups<K, V> = KeyGroups { entries: Vec::new() };
        assert(groups_by_key(elements.take(0), groups.entries@));
        let mut k: usize = 0;
        while k < input.elements.len()
            invariant
                k <= input.elements.len(),
                elements == input.elements@,
                lawful_key::<K>(),
                groups_by_key(elements.take(k as int), groups.entries@),
            decreases input.elements.len() - k,
        {
            let element = &input.elements[k];
            let (key, value) = &element.value;
            let copy = TimestampedValue::new(value.clone(), element.timestamp);
            let ghost before = groups.entries@;
            let ghost old_keys = keys(elements.take(k as int));
            let ghost new_keys = keys(elements.take(k + 1));
            proof {
                assert(new_keys =~= old_keys.push(key@));
                assert(new_keys.drop_last() =~= old_keys);
                lemma_first_seen(old_keys);
                assert forall|a: K::V| a != key@ implies #[trigger] key_positions(new_keys, a)
                    == key_positions(old_keys, a) by {
                    lemma_key_positions_push(old_keys, key@, a);
                }
                lemma_key_positions_push(old_keys, key@, key@);
            }
            match groups.find(key) {
                Some(g) => {
                    groups.entries[g].1.push(copy);
                    proof {
                        assert(first_seen(old_keys)[g as int] == key@);
                        lemma_group_found(
                            elements,
                            k as int,
                            before,
                            groups.entries@,
                            g as int,
                            copy,
                        );
                    }
                },
                None => {
                    let mut values: Vec<TimestampedValue<V>> = Vec::new();
                    values.push(copy);
                    let key_copy = key.clone();
                    assert(cloned(*key, key_copy));
                    groups.entries.push((key_copy, values));
                    proof {
                        assert(!old_keys.contains(key@)) by {
                            if old_keys.contains(key@) {
                                assert(first_seen(old_keys).contains(key@));
                                let g = choose|g: int|
                                    0 <= g < first_seen(old_keys).len() && first_seen(
                                        old_keys,
                                    )[g] == key@;
                                assert(before[g].0@ == key@);
                            }
                        }
                        lemma_group_new(elements, k as int, before, groups.entries@, copy);
                    }
                },
            }
            k = k + 1;
        }
        proof {
            assert(elements.take(elements.len() as int) =~= elements);
            lemma_first_seen(keys(elements));
        }
        groups
    }
}

/// `first_seen` holds the same items, each once.
pub proof fn lemma_first_seen<A>(items: Seq<A>)
    ensures
        forall|a: A| items.contains(a) <==> #[trigger] first_seen(items).contains(a),
        forall|i: int, j: int|
            0 <= i < j < first_seen(items).len() ==> first_seen(items)[i] != first_seen(items)[j],
    decreases items.len(),
{
    if items.len() > 0 {
        let rest = items.drop_last();
        let last = items.last();
        lemma_first_seen(rest);
        assert(items =~= rest.push(last));
        assert forall|a: A| items.contains(a) <==> #[trigger] first_seen(items).contains(a) by {
            assert(items.contains(a) <==> rest.contains(a) || a == last) by {
                if rest.contains(a) {
                    let i = choose|i: int| 0 <= i < rest.len() && rest[i] == a;
                    assert(items[i] == a);
                }
                if a == last {
                    assert(items[items.len() - 1] == a);
                }
                if items.contains(a) && a != last {
                    let i = choose|i: int| 0 <= i < items.len() && items[i] == a;
                    assert(rest[i] == a);
                }
            }
            let old_seen = first_seen(rest);
            if !rest.contains(last) {
                assert(first_seen(items) == old_seen.push(last));
                if old_seen.contains(a) {
                    let i = choose|i: int| 0 <= i < old_seen.len() && old_seen[i] == a;
                    assert(first_seen(items)[i] == a);
                }
                if a == last {
                    assert(first_seen(items)[old_seen.len() as int] == a);
                }
                if first_seen(items).contains(a) && a != last {
                    let i = choose|i: int|
                        0 <= i < first_seen(items).len() && first_seen(items)[i] == a;
                    assert(old_seen[i] == a);
                }
            }
        }
        assert forall|i: int, j: int| 0 <= i < j < first_seen(items).len() implies first_seen(
            items,
        )[i] != first_seen(items)[j] by {
            if j == first_seen(rest).len() {
                assert(first_seen(rest)[i] == first_seen(items)[i]);
                assert(first_seen(rest).contains(first_seen(rest)[i]));
            }
        }
    }
}

/// The positions of a key are those where it stands, in increasing order.
pub proof fn lemma_key_positions<A>(keys: Seq<A>, key: A)
    ensures
        forall|j: int|
            0 <= j < key_positions(keys, key).len() ==> 0 <= #[trigger] key_positions(
                keys,
                key,
            )[j] < keys.len() && keys[key_positions(keys, key)[j]] == key,
        forall|k: int|
            0 <= k < keys.len() && keys[k] == key ==> #[trigger] key_positions(
                keys,
                key,
            ).contains(k),
{
    index::lemma_positions(keys.len(), |k: int| keys[k] == key);
}

/// One more item adds one position to its own key and none to others.
pub proof fn lemma_key_positions_push<A>(keys: Seq<A>, last: A, key: A)
    ensures
        key_positions(keys.push(last), key) == if key == last {
            key_positions(keys, key).push(keys.len() as int)
        } else {
            key_positions(keys, key)
        },
{
    let more = keys.push(last);
    index::lemma_positions_agree(keys.len(), |k: int| more[k] == key, |k: int| keys[k] == key);
}

/// In joined sequences a key stands where it stands in either part.
pub proof fn lemma_key_positions_join<A>(first: Seq<A>, second: Seq<A>, key: A)
    ensures
        key_positions(first + second, key) == key_positions(first, key) + key_positions(
            second,
            key,
        ).map_values(|k: int| k + first.len()),
    decreases second.len(),
{
    let shift = |k: int| k + first.len();
    if second.len() == 0 {
        assert(first + second =~= first);
        assert(key_positions(first, key) + key_positions(second, key).map_values(shift)
            =~= key_positions(first, key));
    } else {
        let rest = second.drop_last();
        let last = second.last();
        lemma_key_positions_join(first, rest, key);
        assert(rest.push(last) =~= second);
        assert((first + rest).push(last) =~= first + second);
        lemma_key_positions_push(rest, last, key);
        lemma_key_positions_push(first + rest, last, key);
        let (mine, theirs) = (key_positions(first, key), key_positions(rest, key));
        if key == last {
            assert(theirs.push(rest.len() as int).map_values(shift) =~= theirs.map_values(
                shift,
            ).push(shift(rest.len() as int)));
            assert((mine + theirs.map_values(shift)).push(shift(rest.len() as int)) =~= mine
                + theirs.map_values(shift).push(shift(rest.len() as int)));
        }
    }
}

/// Grouping one more element whose key has a group.
proof fn lemma_group_found<K: View, V: Clone>(
    elements: Seq<TimestampedValue<(K, V)>>,
    k: int,
    before: Seq<(K, Vec<TimestampedValue<V>>)>,
    after: Seq<(K, Vec<TimestampedValue<V>>)>,
    g: int,
    copy: TimestampedValue<V>,
)
    requires
        0 <= k < elements.len(),
        groups_by_key(elements.take(k), before),
        0 <= g < before.len(),
        before[g].0@ == elements[k].value.0@,
        after.len() == before.len(),
        after[g].0 == before[g].0,
        after[g].1@ == before[g].1@.push(copy),
        forall|h: int| 0 <= h < before.len() && h != g ==> after[h] == before[h],
        cloned(elements[k].value.1, copy.value),
        copy.timestamp == elements[k].timestamp,
    ensures
        groups_by_key(elements.take(k + 1), after),
{
    let key = elements[k].value.0@;
    let old_keys = keys(elements.take(k));
    let new_keys = keys(elements.take(k + 1));
    let seen = first_seen(old_keys);
    assert(new_keys =~= old_keys.push(key));
    assert(new_keys.drop_last() =~= old_keys);
    lemma_first_seen(old_keys);
    assert(seen[g] == key);
    assert(seen.contains(key));
    assert forall|h: int| 0 <= h < seen.len() implies after[h].0@ == #[trigger] seen[h]
        && gathers_values(
        elements.take(k + 1),
        key_positions(new_keys, seen[h]),
        after[h].1@,
    ) by {
        lemma_key_positions_push(old_keys, key, seen[h]);
        assert(before[h].0@ == seen[h]);
        index::lemma_positions(old_keys.len(), |i: int| old_keys[i] == seen[h]);
        let picked = key_positions(old_keys, seen[h]);
        assert(forall|j: int|
            0 <= j < picked.len() ==> elements.take(k + 1)[#[trigger] picked[j]]
                == elements.take(k)[picked[j]]);
    }
}

/// Grouping one more element whose key is new.
proof fn lemma_group_new<K: View, V: Clone>(
    elements: Seq<TimestampedValue<(K, V)>>,
    k: int,
    before: Seq<(K, Vec<TimestampedValue<V>>)>,
    after: Seq<(K, Vec<TimestampedValue<V>>)>,
    copy: TimestampedValue<V>,
)
    requires
        0 <= k < elements.len(),
        groups_by_key(elements.take(k), before),
        !keys(elements.take(k)).contains(elements[k].value.0@),
        after.len() == before.len() + 1,
        forall|h: int| 0 <= h < before.len() ==> after[h] == before[h],
        after.last().0@ == elements[k].value.0@,
        after.last().1@ == seq![copy],
        cloned(elements[k].value.1, copy.value),
        copy.timestamp == elements[k].timestamp,
    ensures
        groups_by_key(elements.take(k + 1), after),
{
    let key = elements[k].value.0@;
    let old_keys = keys(elements.take(k));
    let new_keys = keys(elements.take(k + 1));
    let old_seen = first_seen(old_keys);
    let seen = first_seen(new_keys);
    assert(new_keys =~= old_keys.push(key));
    assert(new_keys.drop_last() =~= old_keys);
    lemma_first_seen(old_keys);
    assert(seen == old_seen.push(key));
    assert forall|h: int| 0 <= h < seen.len() implies after[h].0@ == #[trigger] seen[h]
        && gathers_values(
        elements.take(k + 1),
        key_positions(new_keys, seen[h]),
        after[h].1@,
    ) by {
        lemma_key_positions_push(old_keys, key, seen[h]);
        index::lemma_positions(old_keys.len(), |i: int| old_keys[i] == seen[h]);
        let picked = key_positions(old_keys, seen[h]);
        if h < old_seen.len() {
            assert(before[h].0@ == old_seen[h]);
            assert(old_seen.contains(seen[h]));
            assert(forall|j: int|
                0 <= j < picked.len() ==> elements.take(k + 1)[#[trigger] picked[j]]
                    == elements.take(k)[picked[j]]);
        } else {
            if picked.len() > 0 {
                assert(old_keys[picked[0]] == key);
            }
            assert(key_positions(new_keys, key) =~= seq![k]);
        }
    }
}

} // verus!
