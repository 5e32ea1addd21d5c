use vstd::prelude::*;

use crate::timestamp::Timestamp;

verus! {

/// An element of a collection together with its event time.
#[derive(Debug)]
pub struct TimestampedValue<T> {
    pub value: T,
    pub timestamp: Timestamp,
}

/// Whether `copy` is `element` with its value cloned and its event time kept.
pub open spec fn clone_of<T: Clone>(
    element: TimestampedValue<T>,
    copy: TimestampedValue<T>,
) -> bool {
    cloned(element.value, copy.value) && copy.timestamp == element.timestamp
}

/// Whether clones of a type are equal to what they were cloned from.
pub open spec fn exact_clones<T: Clone>() -> bool {
    forall|a: T, b: T| #[trigger] cloned(a, b) ==> a == b
}

/// The event times of elements.
pub open spec fn times<T>(elements: Seq<TimestampedValue<T>>) -> Seq<Timestamp> {
    elements.map_values(|element: TimestampedValue<T>| element.timestamp)
}

impl<T> TimestampedValue<T> {
    pub fn new(value: T, timestamp: Timestamp) -> (element: Self)
        ensures
            element.value == value,
            element.timestamp == timestamp,
    {
        TimestampedValue { value, timestamp }
    }
}

impl<T: Clone> Clone for TimestampedValue<T> {
    fn clone(&self) -> (copy: Self)
        ensures
            clone_of(*self, copy),
    {
        TimestampedValue { value: self.value.clone(), timestamp: self.timestamp }
    }
}

/// An immutable collection of timestamped elements.
#[derive(Debug)]
pub struct PCollection<T: Clone> {
    pub elements: Vec<TimestampedValue<T>>,
}

/// Whether `result` holds clones of the elements of `source` at the `picked`
/// positions, in that order.
pub open spec fn gathers<T: Clone>(
    source: Seq<TimestampedValue<T>>,
    picked: Seq<int>,
    result: Seq<TimestampedValue<T>>,
) -> bool {
    &&& result.len() == picked.len()
    &&& forall|j: int|
        #![trigger result[j]]
        #![trigger picked[j]]
        0 <= j < picked.len() ==> clone_of(source[picked[j]], result[j])
}

impl<T: Clone> PCollection<T> {
    /// A collection of the given values with their event times.
    pub fn from_timestamped(elements: Vec<(T, Timestamp)>) -> (collection: Self)
        ensures
            collection.elements.len() == elements.len(),
            forall|i: int|
                #![trigger collection.elements[i]]
                #![trigger elements[i]]
                0 <= i < elements.len() ==> collection.elements[i].value == elements[i].0
                    && collection.elements[i].timestamp == elements[i].1,
    {
        let ghost given = elements@;
        let mut result: Vec<TimestampedValue<T>> = Vec::new();
        for element in it: elements.into_iter()
            invariant
                it.seq() == given,
                result.len() == it.index(),
                forall|i: int|
                    0 <= i < it.index() ==> (#[trigger] result[i]).value == given[i].0
                        && result[i].timestamp == given[i].1,
        {
            let (value, timestamp) = element;
            result.push(TimestampedValue::new(value, timestamp));
        }
        PCollection { elements: result }
    }

    pub fn len(&self) -> (len: usize)
        ensures
            len == self.elements.len(),
    {
        self.elements.len()
    }

    pub fn is_empty(&self) -> (empty: bool)
        ensures
            empty == (self.elements.len() == 0),
    {
        self.elements.is_empty()
    }
}

impl<T: Clone> Clone for PCollection<T> {
    fn clone(&self) -> (copy: Self)
        ensures
            copy.elements.len() == self.elements.len(),
            forall|i: int|
                0 <= i < self.elements.len() ==> clone_of(
                    self.elements[i],
                    #[trigger] copy.elements[i],
                ),
    {
        PCollection { elements: self.elements.clone() }
    }
}

} // verus!
