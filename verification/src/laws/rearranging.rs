use vstd::multiset::*;
use vstd::prelude::*;
use vstd::seq_lib::*;

verus! {

/// Whether `order` names every position below `n` exactly once.
pub open spec fn rearranges(order: Seq<int>, n: nat) -> bool {
    &&& order.len() == n
    &&& forall|k: int| 0 <= k < n ==> 0 <= #[trigger] order[k] < n
    &&& forall|x: int| 0 <= x < n ==> #[trigger] order.contains(x)
    &&& order.no_duplicates()
}

/// The items at the given positions, in that order.
pub open spec fn picked<A>(items: Seq<A>, order: Seq<int>) -> Seq<A> {
    order.map_values(|k: int| items[k])
}

/// Two sequences that hold the same items, none of them twice, are the same up
/// to order.
pub proof fn lemma_same_items<A>(a: Seq<A>, b: Seq<A>)
    requires
        a.no_duplicates(),
        b.no_duplicates(),
        forall|x: A| #[trigger] a.contains(x) <==> b.contains(x),
    ensures
        a.to_multiset() == b.to_multiset(),
{
    broadcast use group_to_multiset_ensures;

    a.lemma_multiset_has_no_duplicates();
    b.lemma_multiset_has_no_duplicates();
    assert forall|x: A| #[trigger] a.to_multiset().count(x) == b.to_multiset().count(x) by {
        assert(a.contains(x) <==> b.contains(x));
        assert(a.to_multiset().contains(x) <==> a.contains(x));
        assert(b.to_multiset().contains(x) <==> b.contains(x));
    }
    assert(a.to_multiset() =~= b.to_multiset());
}

/// Mapping keeps sequences the same up to order.
pub proof fn lemma_same_mapped<A, B>(a: Seq<A>, b: Seq<A>, f: spec_fn(A) -> B)
    requires
        a.to_multiset() == b.to_multiset(),
    ensures
        a.map_values(f).to_multiset() == b.map_values(f).to_multiset(),
    decreases a.len(),
{
    broadcast use group_to_multiset_ensures;

    assert(a.len() == a.to_multiset().len() && b.len() == b.to_multiset().len());
    if a.len() == 0 {
        assert(a.map_values(f) =~= b.map_values(f));
    } else {
        let last = a.len() - 1;
        let x = a[last];
        assert(a.contains(x));
        assert(b.contains(x)) by {
            assert(a.to_multiset().count(x) > 0);
        }
        let j = choose|j: int| 0 <= j < b.len() && b[j] == x;
        let (a1, b1) = (a.remove(last), b.remove(j));
        assert(a1.to_multiset() =~= a.to_multiset().remove(x));
        assert(b1.to_multiset() =~= b.to_multiset().remove(x));
        lemma_same_mapped(a1, b1, f);
        let (fa, fb) = (a.map_values(f), b.map_values(f));
        assert(fa.remove(last) =~= a1.map_values(f));
        assert(fb.remove(j) =~= b1.map_values(f));
        assert(fa.remove(last).to_multiset() =~= fa.to_multiset().remove(f(x)));
        assert(fb.remove(j).to_multiset() =~= fb.to_multiset().remove(f(x)));
        assert(fa[last] == f(x) && fb[j] == f(x));
        assert(fa.contains(f(x)) && fb.contains(f(x)));
        assert(fa.to_multiset() =~= fa.to_multiset().remove(f(x)).insert(f(x)));
        assert(fb.to_multiset() =~= fb.to_multiset().remove(f(x)).insert(f(x)));
    }
}

/// A rearrangement holds the same items.
pub proof fn lemma_rearranged<A>(items: Seq<A>, order: Seq<int>)
    requires
        rearranges(order, items.len()),
    ensures
        picked(items, order).to_multiset() == items.to_multiset(),
{
    let all = Seq::new(items.len(), |k: int| k);
    assert forall|x: int| #[trigger] order.contains(x) <==> all.contains(x) by {
        if order.contains(x) {
            let k = choose|k: int| 0 <= k < order.len() && order[k] == x;
            assert(0 <= order[k] < items.len());
            assert(all[x] == x);
        }
        if all.contains(x) {
            let k = choose|k: int| 0 <= k < all.len() && all[k] == x;
            assert(order.contains(x));
        }
    }
    lemma_same_items(order, all);
    lemma_same_mapped(order, all, |k: int| items[k]);
    assert(picked(items, all) =~= items);
}

/// A list that holds every position and none twice is a rearrangement.
pub proof fn lemma_rearranges(list: Seq<int>, n: nat)
    requires
        list.no_duplicates(),
        forall|a: int| 0 <= a < list.len() ==> 0 <= #[trigger] list[a] < n,
        forall|x: int| 0 <= x < n ==> #[trigger] list.contains(x),
    ensures
        rearranges(list, n),
{
    broadcast use group_to_multiset_ensures;

    let all = Seq::new(n, |k: int| k);
    assert forall|x: int| #[trigger] list.contains(x) <==> all.contains(x) by {
        if list.contains(x) {
            let i = choose|i: int| 0 <= i < list.len() && list[i] == x;
            assert(0 <= list[i] < n);
            assert(all[x] == x);
        }
        if all.contains(x) {
            let i = choose|i: int| 0 <= i < all.len() && all[i] == x;
            assert(list.contains(x));
        }
    }
    lemma_same_items(list, all);
    assert(list.len() == list.to_multiset().len() && all.len() == all.to_multiset().len());
}

/// Positions of rearranged items that name the listed positions pick the same
/// items.
pub proof fn lemma_same_picked<A>(items: Seq<A>, order: Seq<int>, a: Seq<int>, b: Seq<int>)
    requires
        rearranges(order, items.len()),
        a.no_duplicates(),
        b.no_duplicates(),
        forall|x: int| #[trigger] a.contains(x) ==> 0 <= x < items.len(),
        forall|k: int| #[trigger] b.contains(k) ==> 0 <= k < items.len(),
        forall|k: int|
            0 <= k < items.len() ==> (#[trigger] b.contains(k) <==> a.contains(order[k])),
    ensures
        picked(items, a).to_multiset() == picked(picked(items, order), b).to_multiset(),
{
    let named = b.map_values(|k: int| order[k]);
    assert forall|j: int| 0 <= j < b.len() implies 0 <= #[trigger] b[j] < items.len() by {
        assert(b.contains(b[j]));
    }
    assert(named.no_duplicates()) by {
        assert forall|i: int, j: int| 0 <= i < named.len() && 0 <= j < named.len() && i != j implies
            named[i] != named[j] by {
            assert(b[i] != b[j]);
            assert(order[b[i]] != order[b[j]]);
        }
    }
    assert forall|x: int| #[trigger] a.contains(x) <==> named.contains(x) by {
        if a.contains(x) {
            assert(order.contains(x));
            let k = choose|k: int| 0 <= k < order.len() && order[k] == x;
            assert(b.contains(k));
            let j = choose|j: int| 0 <= j < b.len() && b[j] == k;
            assert(named[j] == x);
        }
        if named.contains(x) {
            let j = choose|j: int| 0 <= j < named.len() && named[j] == x;
            assert(b.contains(b[j]));
            assert(a.contains(order[b[j]]));
        }
    }
    lemma_same_items(a, named);
    lemma_same_mapped(a, named, |k: int| items[k]);
    assert(picked(items, named) =~= picked(picked(items, order), b));
}

} // verus!
