use vstd::prelude::*;

use crate::collection;
use crate::collection::TimestampedValue;
use crate::timestamp::Timestamp;

verus! {

/// Whether position `i` comes before position `j` in time: by the total order
/// of their event times and, where that does not tell them apart, by
/// position.
pub open spec fn earlier(times: Seq<Timestamp>, i: int, j: int) -> bool {
    times[i].rank() < times[j].rank() || (times[i].rank() == times[j].rank() && i < j)
}

/// Whether `list` is ordered in time.
pub open spec fn in_time_order(times: Seq<Timestamp>, list: Seq<int>) -> bool {
    forall|a: int, b: int|
        0 <= a < b < list.len() ==> earlier(times, #[trigger] list[a], #[trigger] list[b])
}

/// Whether `list` holds exactly the positions from `low` up to `high`, in
/// time order.
pub open spec fn orders_range(times: Seq<Timestamp>, list: Seq<int>, low: int, high: int) -> bool {
    &&& in_time_order(times, list)
    &&& forall|a: int| 0 <= a < list.len() ==> low <= #[trigger] list[a] < high
    &&& forall|k: int| low <= k < high ==> #[trigger] list.contains(k)
}

/// The positions in a list as mathematical integers.
pub open spec fn as_positions(list: Seq<usize>) -> Seq<int> {
    list.map_values(|i: usize| i as int)
}

/// The positions from `low` up to `high` in time order. Elements at the same
/// time keep their order.
pub(crate) fn sort_positions<T>(elements: &Vec<TimestampedValue<T>>, low: usize, high: usize) -> (list:
    Vec<usize>)
    requires
        low <= high <= elements.len(),
    ensures
        orders_range(
            collection::times(elements@),
            as_positions(list@),
            low as int,
            high as int,
        ),
    decreases high - low,
{
    let ghost times = collection::times(elements@);
    if high - low <= 1 {
        let mut list: Vec<usize> = Vec::new();
        if low < high {
            list.push(low);
            assert(as_positions(list@)[0] == low);
        }
        return list;
    }
    let middle: usize = low + (high - low) / 2;
    let left = sort_positions(elements, low, middle);
    let right = sort_positions(elements, middle, high);
    merge(elements, left, right, Ghost(low as int), Ghost(middle as int), Ghost(high as int))
}

/// Merges the ordered positions of two adjacent ranges.
fn merge<T>(
    elements: &Vec<TimestampedValue<T>>,
    left: Vec<usize>,
    right: Vec<usize>,
    Ghost(low): Ghost<int>,
    Ghost(middle): Ghost<int>,
    Ghost(high): Ghost<int>,
) -> (list: Vec<usize>)
    requires
        0 <= low <= middle <= high <= elements.len(),
        orders_range(collection::times(elements@), as_positions(left@), low, middle),
        orders_range(collection::times(elements@), as_positions(right@), middle, high),
    ensures
        orders_range(collection::times(elements@), as_positions(list@), low, high),
{
    let ghost times = collection::times(elements@);
    let ghost ls = as_positions(left@);
    let ghost rs = as_positions(right@);
    let mut list: Vec<usize> = Vec::new();
    let mut a: usize = 0;
    let mut b: usize = 0;
    while a < left.len() || b < right.len()
        invariant
            0 <= low <= middle <= high <= elements.len(),
            times == collection::times(elements@),
            ls == as_positions(left@),
            rs == as_positions(right@),
            orders_range(times, ls, low, middle),
            orders_range(times, rs, middle, high),
            a <= left.len(),
            b <= right.len(),
            in_time_order(times, as_positions(list@)),
            forall|c: int| 0 <= c < list.len() ==> low <= #[trigger] list[c] < high,
            forall|c: int, d: int|
                0 <= c < list.len() && a <= d < left.len() ==> earlier(
                    times,
                    #[trigger] as_positions(list@)[c],
                    #[trigger] ls[d],
                ),
            forall|c: int, d: int|
                0 <= c < list.len() && b <= d < right.len() ==> earlier(
                    times,
                    #[trigger] as_positions(list@)[c],
                    #[trigger] rs[d],
                ),
            forall|d: int| 0 <= d < a ==> as_positions(list@).contains(#[trigger] ls[d]),
            forall|d: int| 0 <= d < b ==> as_positions(list@).contains(#[trigger] rs[d]),
        decreases left.len() - a + right.len() - b,
    {
        let ghost before = as_positions(list@);
        let take_left: bool = if a == left.len() {
            false
        } else if b == right.len() {
            true
        } else {
            assert(low <= ls[a as int] < middle);
            assert(middle <= rs[b as int] < high);
            !elements[right[b]].timestamp.ranks_before(&elements[left[a]].timestamp)
        };
        if take_left {
            let next: usize = left[a];
            assert(ls[a as int] == next);
            list.push(next);
            proof {
                assert(as_positions(list@) =~= before.push(next as int));
                assert forall|d: int| b <= d < right.len() implies earlier(
                    times,
                    next as int,
                    #[trigger] rs[d],
                ) by {
                    assert(middle <= rs[b as int] < high);
                    assert(earlier(times, next as int, rs[b as int]));
                    if d > b {
                        assert(earlier(times, rs[b as int], rs[d]));
                    }
                }
                lemma_push_keeps(before, next as int);
            }
            a = a + 1;
        } else {
            let next: usize = right[b];
            assert(rs[b as int] == next);
            list.push(next);
            proof {
                assert(as_positions(list@) =~= before.push(next as int));
                assert forall|d: int| a <= d < left.len() implies earlier(
                    times,
                    next as int,
                    #[trigger] ls[d],
                ) by {
                    assert(earlier(times, next as int, ls[a as int]));
                    if d > a {
                        assert(earlier(times, ls[a as int], ls[d]));
                    }
                }
                lemma_push_keeps(before, next as int);
            }
            b = b + 1;
        }
    }
    proof {
        let merged = as_positions(list@);
        assert forall|k: int| low <= k < high implies #[trigger] merged.contains(k) by {
            if k < middle {
                assert(ls.contains(k));
                let d = choose|d: int| 0 <= d < ls.len() && ls[d] == k;
                assert(merged.contains(ls[d]));
            } else {
                assert(rs.contains(k));
                let d = choose|d: int| 0 <= d < rs.len() && rs[d] == k;
                assert(merged.contains(rs[d]));
            }
        }
    }
    list
}

proof fn lemma_push_keeps(list: Seq<int>, next: int)
    ensures
        list.push(next).contains(next),
        forall|k: int| list.contains(k) ==> #[trigger] list.push(next).contains(k),
{
    assert(list.push(next)[list.len() as int] == next);
    assert forall|k: int| list.contains(k) implies #[trigger] list.push(next).contains(k) by {
        let i = choose|i: int| 0 <= i < list.len() && list[i] == k;
        assert(list.push(next)[i] == k);
    }
}

} // verus!
