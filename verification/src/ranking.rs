//! Ordering positions by keys.
use vstd::prelude::*;

verus! {

/// The `i`-th key comes before the `j`-th: the smaller pair first, equal
/// pairs by position.
pub open spec fn ranks_before(keys: Seq<(u64, u64)>, i: int, j: int) -> bool {
    keys[i].0 < keys[j].0 || (keys[i].0 == keys[j].0 && (keys[i].1 < keys[j].1 || (keys[i].1 == keys[j].1 && i < j)))
}

/// The position `i` stands in `order`.
pub open spec fn listed(order: Seq<usize>, i: int) -> bool {
    exists|a: int| 0 <= a < order.len() && #[trigger] order[a] == i
}

/// `order` holds the positions of `keys`, each once, in rank order.
pub open spec fn is_ranking(keys: Seq<(u64, u64)>, order: Seq<usize>) -> bool {
    &&& order.len() == keys.len()
    &&& forall|a: int| 0 <= a < order.len() ==> #[trigger] order[a] < keys.len()
    &&& forall|i: int| 0 <= i < keys.len() ==> #[trigger] listed(order, i)
    &&& forall|a: int, b: int| 0 <= a < b < order.len() ==> ranks_before(keys, #[trigger] order[a] as int, #[trigger] order[b] as int)
}

/// The positions of `keys`, in rank order.
pub fn rank(keys: &Vec<(u64, u64)>) -> (order: Vec<usize>)
    ensures
        is_ranking(keys@, order@),
{
    let mut order: Vec<usize> = Vec::new();
    let mut i: usize = 0;
    while i < keys.len()
        invariant
            i <= keys.len(),
            order.len() == i,
            forall|a: int| 0 <= a < i ==> #[trigger] order@[a] < i,
            forall|j: int| 0 <= j < i ==> #[trigger] listed(order@, j),
            forall|a: int, b: int|
                0 <= a < b < i ==> ranks_before(keys@, #[trigger] order@[a] as int, #[trigger] order@[b] as int),
        decreases keys.len() - i,
    {
        let mut at: usize = order.len();
        while at > 0 && !(keys[order[at - 1]].0 < keys[i].0 || (keys[order[at - 1]].0 == keys[i].0 && keys[order[at
            - 1]].1 <= keys[i].1))
            invariant
                i < keys.len(),
                order.len() == i,
                at <= i,
                forall|a: int| 0 <= a < i ==> #[trigger] order@[a] < i,
                forall|a: int| at <= a < i ==> ranks_before(keys@, i as int, #[trigger] order@[a] as int),
            decreases at,
        {
            at = at - 1;
        }
        let ghost was = order@;
        order.insert(at, i);
        proof {
            assert forall|j: int| 0 <= j < i + 1 implies #[trigger] listed(order@, j) by {
                if j == i {
                    assert(order@[at as int] == j);
                } else {
                    assert(listed(was, j));
                    let a = choose|a: int| 0 <= a < was.len() && #[trigger] was[a] == j;
                    let b = if a < at { a } else { a + 1 };
                    assert(order@[b] == j);
                }
            }
            assert forall|a: int, b: int| 0 <= a < b < i + 1 implies ranks_before(
                keys@,
                #[trigger] order@[a] as int,
                #[trigger] order@[b] as int,
            ) by {
                let x = if a < at { a } else { a - 1 };
                let y = if b < at { b } else { b - 1 };
                if a != at && b != at {
                    assert(ranks_before(keys@, was[x] as int, was[y] as int));
                } else if b == at {
                    assert(ranks_before(keys@, was[at - 1] as int, i as int));
                    if a < at - 1 {
                        assert(ranks_before(keys@, was[a] as int, was[at - 1] as int));
                    }
                }
            }
        }
        i = i + 1;
    }
    order
}

/// Two rankings of the same keys are the same.
pub proof fn ranking_unique(keys: Seq<(u64, u64)>, a: Seq<usize>, b: Seq<usize>)
    requires
        is_ranking(keys, a),
        is_ranking(keys, b),
    ensures
        a == b,
{
    agree_up_to(keys, a, b, a.len() as int);
    assert(a =~= b);
}

proof fn agree_up_to(keys: Seq<(u64, u64)>, a: Seq<usize>, b: Seq<usize>, n: int)
    requires
        is_ranking(keys, a),
        is_ranking(keys, b),
        0 <= n <= a.len(),
    ensures
        forall|i: int| 0 <= i < n ==> a[i] == b[i],
    decreases n,
{
    if n > 0 {
        agree_up_to(keys, a, b, n - 1);
        let p = n - 1;
        if a[p] != b[p] {
            assert(listed(b, a[p] as int));
            assert(listed(a, b[p] as int));
            let y = choose|y: int| 0 <= y < b.len() && #[trigger] b[y] == a[p] as int;
            let x = choose|x: int| 0 <= x < a.len() && #[trigger] a[x] == b[p] as int;
            if y < p {
                assert(a[y] == b[y]);
                assert(ranks_before(keys, a[y] as int, a[p] as int));
            }
            if x < p {
                assert(a[x] == b[x]);
                assert(ranks_before(keys, b[x] as int, b[p] as int));
            }
            assert(ranks_before(keys, b[p] as int, b[y] as int));
            assert(ranks_before(keys, a[p] as int, a[x] as int));
        }
    }
}

/// A ranking puts the smaller key first, by its first part and then by its
/// second; equal keys stay in the order in which they stood, and every
/// position is ranked once.
pub proof fn smaller_keys_rank_first(keys: Seq<(u64, u64)>, order: Seq<usize>, a: int, b: int, i: int)
    requires
        is_ranking(keys, order),
        0 <= a < b < order.len(),
    ensures
        order.len() == keys.len(),
        order[a] < keys.len(),
        keys[order[a] as int].0 <= keys[order[b] as int].0,
        keys[order[a] as int].0 == keys[order[b] as int].0 ==> keys[order[a] as int].1 <= keys[order[b] as int].1,
        keys[order[a] as int] == keys[order[b] as int] ==> order[a] < order[b],
        order[a] != order[b],
        0 <= i < keys.len() ==> exists|c: int| 0 <= c < order.len() && #[trigger] order[c] == i,
{
    assert(ranks_before(keys, order[a] as int, order[b] as int));
    if 0 <= i < keys.len() {
        assert(listed(order, i));
    }
}

} // verus!
