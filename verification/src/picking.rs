//! Picking from a sequence: some of its items, in their order.
use vstd::prelude::*;

verus! {

/// `picked` holds those of the first `n` items of `s` whose position has the
/// property, each as often as it stands there, in their order; `at` says
/// where each stands.
pub open spec fn picks<A>(s: Seq<A>, n: nat, p: spec_fn(int) -> bool, picked: Seq<A>, at: Seq<int>) -> bool {
    &&& n <= s.len()
    &&& picked.len() == at.len()
    &&& forall|k: int| 0 <= k < at.len() ==> 0 <= #[trigger] at[k] < n && p(at[k]) && picked[k] == s[at[k]]
    &&& forall|k: int, l: int| 0 <= k < l < at.len() ==> #[trigger] at[k] < #[trigger] at[l]
    &&& forall|i: int| 0 <= i < n && #[trigger] p(i) ==> exists|k: int| 0 <= k < at.len() && #[trigger] at[k] == i
}

/// The positions with one more item looked at.
pub open spec fn and_next(at: Seq<int>, n: nat, taken: bool) -> Seq<int> {
    if taken {
        at.push(n as int)
    } else {
        at
    }
}

/// Picking goes on item by item.
pub proof fn picks_on<A>(s: Seq<A>, n: nat, p: spec_fn(int) -> bool, picked: Seq<A>, at: Seq<int>, now: Seq<A>)
    requires
        n < s.len(),
        picks(s, n, p, picked, at),
        now == if p(n as int) {
            picked.push(s[n as int])
        } else {
            picked
        },
    ensures
        picks(s, n + 1, p, now, and_next(at, n, p(n as int))),
{
    let to = and_next(at, n, p(n as int));
    assert forall|k: int| 0 <= k < to.len() implies 0 <= #[trigger] to[k] < n + 1 && p(to[k]) && now[k] == s[to[k]] by {
        if k < at.len() {
            assert(to[k] == at[k]);
        }
    }
    assert forall|k: int, l: int| 0 <= k < l < to.len() implies #[trigger] to[k] < #[trigger] to[l] by {
        assert(to[k] == at[k]);
        if l < at.len() {
            assert(to[l] == at[l]);
        }
    }
    assert forall|i: int| 0 <= i < n + 1 && #[trigger] p(i) implies exists|k: int| 0 <= k < to.len() && #[trigger] to[k] == i by {
        if i == n {
            assert(to[at.len() as int] == i);
        } else {
            let k = choose|k: int| 0 <= k < at.len() && #[trigger] at[k] == i;
            assert(to[k] == i);
        }
    }
}

} // verus!
