use vstd::prelude::*;

verus! {

/// The numbers below `n` that satisfy `p`, in increasing order.
pub open spec fn positions(n: nat, p: spec_fn(int) -> bool) -> Seq<int>
    decreases n,
{
    if n == 0 {
        Seq::empty()
    } else {
        let rest = positions((n - 1) as nat, p);
        if p(n - 1) {
            rest.push(n - 1)
        } else {
            rest
        }
    }
}

/// `positions` lists exactly the numbers below `n` that satisfy `p`, each
/// once and in order.
pub proof fn lemma_positions(n: nat, p: spec_fn(int) -> bool)
    ensures
        forall|i: int|
            0 <= i < positions(n, p).len() ==> 0 <= #[trigger] positions(n, p)[i] < n && p(
                positions(n, p)[i],
            ),
        forall|i: int, j: int|
            0 <= i < j < positions(n, p).len() ==> positions(n, p)[i] < positions(n, p)[j],
        forall|k: int| 0 <= k < n && p(k) ==> positions(n, p).contains(k),
    decreases n,
{
    if n > 0 {
        let rest = positions((n - 1) as nat, p);
        lemma_positions((n - 1) as nat, p);
        let all = positions(n, p);
        assert forall|k: int| 0 <= k < n && p(k) implies all.contains(k) by {
            if k == n - 1 {
                assert(all[all.len() - 1] == k);
            } else {
                assert(rest.contains(k));
                let i = choose|i: int| 0 <= i < rest.len() && rest[i] == k;
                assert(all[i] == k);
            }
        }
    }
}

/// Conditions that agree below `n` have the same positions.
pub proof fn lemma_positions_agree(n: nat, p: spec_fn(int) -> bool, q: spec_fn(int) -> bool)
    requires
        forall|k: int| 0 <= k < n ==> #[trigger] p(k) == q(k),
    ensures
        positions(n, p) == positions(n, q),
    decreases n,
{
    if n > 0 {
        lemma_positions_agree((n - 1) as nat, p, q);
    }
}

/// A condition that holds less often has no more positions.
pub proof fn lemma_positions_fewer(n: nat, p: spec_fn(int) -> bool, q: spec_fn(int) -> bool)
    requires
        forall|k: int| 0 <= k < n && #[trigger] q(k) ==> p(k),
    ensures
        positions(n, q).len() <= positions(n, p).len(),
    decreases n,
{
    if n > 0 {
        lemma_positions_fewer((n - 1) as nat, p, q);
    }
}

} // verus!
