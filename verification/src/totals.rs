use vstd::prelude::*;
use vstd::utf8::*;

verus! {

/// Whether `a` and `b` first differ at `i`, with `a` the smaller: it ends
/// there or holds the smaller byte.
pub open spec fn smaller_at(a: Seq<u8>, b: Seq<u8>, i: int) -> bool {
    &&& 0 <= i <= a.len()
    &&& i < b.len()
    &&& forall|j: int| 0 <= j < i ==> a[j] == b[j]
    &&& i == a.len() || a[i] < b[i]
}

/// The lexicographic order of byte strings.
pub open spec fn bytes_before(a: Seq<u8>, b: Seq<u8>) -> bool {
    exists|i: int| smaller_at(a, b, i)
}

/// The order of keys: that of their UTF-8 bytes.
pub open spec fn key_before(a: Seq<char>, b: Seq<char>) -> bool {
    bytes_before(encode_utf8(a), encode_utf8(b))
}

/// The sum of the values recorded for `key`.
pub open spec fn key_total(records: Seq<(Seq<char>, int)>, key: Seq<char>) -> int
    decreases records.len(),
{
    if records.len() == 0 {
        0
    } else {
        let rest = key_total(records.drop_last(), key);
        if records.last().0 == key {
            rest + records.last().1
        } else {
            rest
        }
    }
}

pub open spec fn has_key(records: Seq<(Seq<char>, int)>, key: Seq<char>) -> bool {
    exists|i: int| 0 <= i < records.len() && (#[trigger] records[i]).0 == key
}

/// Whether `totals` lists every key of `records` once, in key order, with the
/// sum of its values.
pub open spec fn is_totals(
    totals: Seq<(Seq<char>, int)>,
    records: Seq<(Seq<char>, int)>,
) -> bool {
    &&& forall|i: int, j: int|
        0 <= i < j < totals.len() ==> key_before(
            (#[trigger] totals[i]).0,
            (#[trigger] totals[j]).0,
        )
    &&& forall|i: int|
        0 <= i < totals.len() ==> (#[trigger] totals[i]).1 == key_total(records, totals[i].0)
            && has_key(records, totals[i].0)
    &&& forall|i: int| 0 <= i < records.len() ==> has_key(totals, (#[trigger] records[i]).0)
}

/// Whether every running sum of every key lies within `i64`.
pub open spec fn totals_fit(records: Seq<(Seq<char>, int)>) -> bool {
    forall|m: int, key: Seq<char>|
        0 <= m <= records.len() ==> i64::MIN <= #[trigger] key_total(records.take(m), key)
            <= i64::MAX
}

/// A list of keys with sums in mathematical terms.
pub open spec fn as_totals(list: Seq<(String, i64)>) -> Seq<(Seq<char>, int)> {
    list.map_values(|entry: (String, i64)| (entry.0@, entry.1 as int))
}

/// How two keys compare.
enum KeyOrder {
    Before,
    Same,
    After,
}

/// Compares two keys.
fn compare_keys(a: &String, b: &String) -> (order: KeyOrder)
    ensures
        match order {
            KeyOrder::Before => key_before(a@, b@),
            KeyOrder::Same => a@ == b@,
            KeyOrder::After => key_before(b@, a@),
        },
{
    let x: &[u8] = a.as_str().as_bytes();
    let y: &[u8] = b.as_str().as_bytes();
    let mut i: usize = 0;
    while i < x.len() && i < y.len()
        invariant
            i <= x@.len(),
            i <= y@.len(),
            x@ == encode_utf8(a@),
            y@ == encode_utf8(b@),
            forall|j: int| 0 <= j < i ==> x@[j] == y@[j],
        decreases x.len() - i,
    {
        if x[i] < y[i] {
            assert(smaller_at(x@, y@, i as int));
            return KeyOrder::Before;
        }
        if y[i] < x[i] {
            assert(smaller_at(y@, x@, i as int));
            return KeyOrder::After;
        }
        i = i + 1;
    }
    if i < y.len() {
        assert(smaller_at(x@, y@, i as int));
        KeyOrder::Before
    } else if i < x.len() {
        assert(smaller_at(y@, x@, i as int));
        KeyOrder::After
    } else {
        proof {
            assert(x@ =~= y@);
            encode_utf8_decode_utf8(a@);
            encode_utf8_decode_utf8(b@);
        }
        KeyOrder::Same
    }
}

/// Keys are ordered: no key before itself, and what is before a key that is
/// before a third is before the third.
pub proof fn lemma_key_order(a: Seq<char>, b: Seq<char>, c: Seq<char>)
    ensures
        !key_before(a, a),
        key_before(a, b) && key_before(b, c) ==> key_before(a, c),
{
    let (x, y, z) = (encode_utf8(a), encode_utf8(b), encode_utf8(c));
    if key_before(a, a) {
        let i = choose|i: int| smaller_at(x, x, i);
        assert(false);
    }
    if key_before(a, b) && key_before(b, c) {
        let i = choose|i: int| smaller_at(x, y, i);
        let j = choose|j: int| smaller_at(y, z, j);
        assert(smaller_at(
            x,
            z,
            if i < j {
                i
            } else {
                j
            },
        ));
    }
}

/// Adds a value to the sum of its key in a list ordered by key, unless the sum
/// would leave `i64`. Says whether it did.
pub(crate) fn add_to_key(
    list: &mut Vec<(String, i64)>,
    key: &String,
    value: i64,
    Ghost(records): Ghost<Seq<(Seq<char>, int)>>,
) -> (added: bool)
    requires
        is_totals(as_totals(old(list)@), records),
    ensures
        added == (i64::MIN <= key_total(records, key@) + value <= i64::MAX),
        added ==> is_totals(as_totals(final(list)@), records.push((key@, value as int))),
        !added ==> final(list)@ == old(list)@,
{
    let ghost before = as_totals(list@);
    let ghost record = (key@, value as int);
    let ghost all = records.push(record);
    proof {
        assert(all.drop_last() =~= records);
        assert forall|k: Seq<char>| #[trigger] key_total(all, k) == key_total(records, k) + if k
            == key@ {
            value as int
        } else {
            0
        } by {}
        assert forall|k: Seq<char>| has_key(records, k) implies #[trigger] has_key(all, k) by {
            let i = choose|i: int| 0 <= i < records.len() && (#[trigger] records[i]).0 == k;
            assert(all[i].0 == k);
        }
        assert(all[records.len() as int] == record);
        assert(has_key(all, key@));
    }
    let mut low: usize = 0;
    let mut high: usize = list.len();
    while low < high
        invariant
            list@ == old(list)@,
            before == as_totals(list@),
            low <= high <= list.len(),
            is_totals(before, records),
            all == records.push(record),
            record == (key@, value as int),
            forall|k: Seq<char>| #[trigger]
                key_total(all, k) == key_total(records, k) + if k == key@ {
                    value as int
                } else {
                    0
                },
            forall|k: Seq<char>| has_key(records, k) ==> #[trigger] has_key(all, k),
            has_key(all, key@),
            forall|i: int| 0 <= i < low ==> key_before((#[trigger] before[i]).0, key@),
            forall|i: int|
                high <= i < list.len() ==> key_before(key@, (#[trigger] before[i]).0),
        decreases high - low,
    {
        let middle: usize = low + (high - low) / 2;
        assert(before[middle as int] == (list[middle as int].0@, list[middle as int].1 as int));
        match compare_keys(&list[middle].0, key) {
            KeyOrder::Before => {
                proof {
                    assert forall|i: int| 0 <= i < middle + 1 implies key_before(
                        (#[trigger] before[i]).0,
                        key@,
                    ) by {
                        lemma_key_order(before[i].0, before[middle as int].0, key@);
                    }
                }
                low = middle + 1;
            },
            KeyOrder::After => {
                proof {
                    assert forall|i: int| middle <= i < list.len() implies key_before(
                        key@,
                        (#[trigger] before[i]).0,
                    ) by {
                        lemma_key_order(key@, before[middle as int].0, before[i].0);
                    }
                }
                high = middle;
            },
            KeyOrder::Same => {
                let sum: i64 = match list[middle].1.checked_add(value) {
                    Some(sum) => sum,
                    None => return false,
                };
                list[middle].1 = sum;
                proof {
                    let after = as_totals(list@);
                    assert(after =~= before.update(middle as int, (key@, sum as int)));
                    lemma_key_order(key@, key@, key@);
                    assert forall|i: int| 0 <= i < after.len() implies (#[trigger] after[i]).1
                        == key_total(all, after[i].0) && has_key(all, after[i].0) by {
                        if i != middle {
                            assert(after[i] == before[i]);
                            assert(before[i].0 != key@);
                        }
                    }
                    assert forall|i: int| 0 <= i < all.len() implies has_key(
                        after,
                        (#[trigger] all[i]).0,
                    ) by {
                        if i < records.len() {
                            assert(all[i] == records[i]);
                            let j = choose|j: int|
                                0 <= j < before.len() && (#[trigger] before[j]).0 == records[i].0;
                            assert(after[j].0 == records[i].0);
                        } else {
                            assert(after[middle as int].0 == key@);
                        }
                    }
                }
                return true;
            },
        }
    }
    proof {
        assert(!has_key(before, key@)) by {
            if has_key(before, key@) {
                let i = choose|i: int| 0 <= i < before.len() && (#[trigger] before[i]).0 == key@;
                lemma_key_order(key@, key@, key@);
            }
        }
        assert(!has_key(records, key@)) by {
            if has_key(records, key@) {
                let i = choose|i: int| 0 <= i < records.len() && (#[trigger] records[i]).0 == key@;
                assert(has_key(before, records[i].0));
            }
        }
        lemma_missing_key(records, key@);
    }
    let ghost at = low as int;
    list.insert(low, (key.clone(), value));
    proof {
        let after = as_totals(list@);
        assert(after =~= before.insert(at, record));
        assert forall|i: int, j: int| 0 <= i < j < after.len() implies key_before(
            (#[trigger] after[i]).0,
            (#[trigger] after[j]).0,
        ) by {
            if i != at {
                assert(after[i] == before[if i < at {
                    i
                } else {
                    i - 1
                }]);
            }
            if j != at {
                assert(after[j] == before[if j < at {
                    j
                } else {
                    j - 1
                }]);
            }
        }
        assert forall|i: int| 0 <= i < after.len() implies (#[trigger] after[i]).1 == key_total(
            all,
            after[i].0,
        ) && has_key(all, after[i].0) by {
            if i != at {
                let b = if i < at {
                    i
                } else {
                    i - 1
                };
                assert(after[i] == before[b]);
                assert(has_key(before, before[b].0));
            }
        }
        assert forall|i: int| 0 <= i < all.len() implies has_key(
            after,
            (#[trigger] all[i]).0,
        ) by {
            if i < records.len() {
                assert(all[i] == records[i]);
                let j = choose|j: int|
                    0 <= j < before.len() && (#[trigger] before[j]).0 == records[i].0;
                let a = if j < at {
                    j
                } else {
                    j + 1
                };
                assert(after[a] == before[j]);
            } else {
                assert(after[at].0 == key@);
            }
        }
    }
    true
}

/// The sum of a key without records is 0.
pub proof fn lemma_missing_key(records: Seq<(Seq<char>, int)>, key: Seq<char>)
    requires
        !has_key(records, key),
    ensures
        key_total(records, key) == 0,
    decreases records.len(),
{
    if records.len() > 0 {
        let rest = records.drop_last();
        assert(records[records.len() - 1] == records.last());
        if has_key(rest, key) {
            let i = choose|i: int| 0 <= i < rest.len() && (#[trigger] rest[i]).0 == key;
            assert(records[i].0 == key);
        }
        lemma_missing_key(rest, key);
    }
}

} // verus!
