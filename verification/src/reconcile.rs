//! The groups after a start: what dangles is dropped and the nesting untangled.
use crate::group_ops;
use crate::groups;
use crate::groups::{copy_groups, repair_nesting, GroupRecord};
use crate::names;
use crate::names::NameMap;
use crate::replication;
use crate::replication::{drop_dangling, known_names};
use crate::state::{AppState, Entry};
use vstd::prelude::*;

verus! {

/// The groups without the members that are no contexts.
pub open spec fn without_members(m: replication::GroupMap, contexts: Set<Seq<char>>) -> replication::GroupMap {
    m.map_values(|g: groups::GroupView| groups::GroupView { contexts: g.contexts.intersect(contexts), ..g })
}

/// The groups without a member or a child that is not there, and with a
/// nesting that fits.
pub open spec fn reconciled(m: replication::GroupMap, contexts: Set<Seq<char>>) -> replication::GroupMap {
    groups::repaired(replication::without_dangling(without_members(m, contexts)))
}

/// Drops every member that is not a context.
fn drop_members(groups: &mut NameMap<GroupRecord>, contexts: &NameMap<Entry>)
    requires
        groups::groups_wf(*old(groups)),
        contexts.wf(),
    ensures
        groups::groups_wf(*final(groups)),
        groups::group_map(*final(groups)) == without_members(groups::group_map(*old(groups)), contexts@.dom()),
{
    let ghost m = groups::group_map(*groups);
    let ghost goal = without_members(m, contexts@.dom());
    let ghost order = groups.order();
    let n: usize = groups.len();
    let mut i: usize = 0;
    proof {
        groups.order_is_domain();
    }
    while i < n
        invariant
            groups::groups_wf(*groups),
            contexts.wf(),
            order == groups.order(),
            n == order.len(),
            i <= n,
            goal == without_members(m, contexts@.dom()),
            groups@.dom() == m.dom(),
            forall|j: int| 0 <= j < n ==> m.contains_key(#[trigger] order[j]),
            forall|j: int| 0 <= j < i ==> groups@[#[trigger] order[j]]@ == goal[order[j]],
            forall|j: int| i <= j < n ==> groups@[#[trigger] order[j]]@ == m[order[j]],
            names::ascending(order),
        decreases n - i,
    {
        let kept = known_names(&groups.value_at(i).contexts, contexts);
        let ghost was = groups@;
        let record = groups.value_at_mut(i);
        record.contexts = kept;
        proof {
            assert forall|j: int| 0 <= j < n && j != i implies #[trigger] order[j] != order[i as int] by {
                names::before_irreflexive(order[i as int]);
                if j < i {
                    assert(names::before(order[j], order[i as int]));
                } else {
                    assert(names::before(order[i as int], order[j]));
                }
            }
            assert(groups@.dom() =~= was.dom());
            assert(groups@[order[i as int]]@ == goal[order[i as int]]);
        }
        i = i + 1;
    }
    proof {
        groups.order_is_domain();
        assert forall|k: Seq<char>| goal.contains_key(k) implies groups::group_map(*groups)[k] == goal[k] by {
            assert(order.contains(k));
            let j = choose|j: int| 0 <= j < order.len() && order[j] == k;
            assert(groups@[order[j]]@ == goal[order[j]]);
        }
        assert(groups::group_map(*groups) =~= goal);
    }
}

/// The names, ascending, of the groups that another record stands for now.
fn changed_groups(before: &NameMap<GroupRecord>, after: &NameMap<GroupRecord>) -> (res: Vec<String>)
    requires
        groups::groups_wf(*before),
        groups::groups_wf(*after),
        groups::group_map(*before).dom() == groups::group_map(*after).dom(),
    ensures
        names::ascending(names::views(res@)),
        forall|g: Seq<char>| #[trigger]
            names::views(res@).contains(g) <==> groups::group_map(*before).contains_key(g) && groups::group_map(
                *before,
            )[g] != groups::group_map(*after)[g],
{
    let ghost m = groups::group_map(*before);
    let ghost now = groups::group_map(*after);
    let ghost order = after.order();
    let n: usize = after.len();
    let mut res: Vec<String> = Vec::new();
    let mut i: usize = 0;
    proof {
        after.order_is_domain();
        assert(names::views(res@) =~= Seq::empty());
        assert(now.dom() =~= after@.dom());
    }
    while i < n
        invariant
            groups::groups_wf(*before),
            groups::groups_wf(*after),
            m == groups::group_map(*before),
            now == groups::group_map(*after),
            m.dom() == now.dom(),
            order == after.order(),
            names::ascending(order),
            forall|j: int| 0 <= j < order.len() ==> now.contains_key(#[trigger] order[j]),
            n == order.len(),
            i <= n,
            names::ascending(names::views(res@)),
            forall|k: int|
                0 <= k < res.len() ==> exists|j: int| 0 <= j < i && #[trigger] order[j] == (#[trigger] res@[k])@,
            forall|g: Seq<char>| #[trigger]
                names::views(res@).contains(g) <==> order.take(i as int).contains(g) && m[g] != now[g],
        decreases n - i,
    {
        let name = after.key_at(i).clone();
        assert(order[i as int] == name@);
        assert(m.contains_key(name@));
        let same = match before.get(name.as_str()) {
            Some(record) => record.equals(after.value_at(i)),
            None => false,
        };
        proof {
            assert(same == (m[name@] == now[name@]));
            groups::taken_one_more(order, i as int);
        }
        if !same {
            let ghost was = names::views(res@);
            let ghost held = res@;
            proof {
                groups::pushed_view(res@, name);
                assert forall|a: int, b: int| 0 <= a < b < was.push(name@).len() implies names::before(
                    #[trigger] was.push(name@)[a],
                    #[trigger] was.push(name@)[b],
                ) by {
                    if b == was.len() {
                        let j = choose|j: int| 0 <= j < i && #[trigger] order[j] == res@[a]@;
                        assert(names::before(order[j], order[i as int]));
                    } else {
                        assert(names::before(was[a], was[b]));
                    }
                }
            }
            res.push(name);
            assert forall|k: int| 0 <= k < res.len() implies exists|j: int|
                0 <= j < i + 1 && #[trigger] order[j] == (#[trigger] res@[k])@ by {
                if k < held.len() {
                    let j = choose|j: int| 0 <= j < i && #[trigger] order[j] == held[k]@;
                    assert(order[j] == res@[k]@);
                } else {
                    assert(order[i as int] == res@[k]@);
                }
            }
        }
        i = i + 1;
    }
    proof {
        assert(order.take(n as int) =~= order);
        after.order_is_domain();
        assert forall|g: Seq<char>| #[trigger] names::views(res@).contains(g) <==> m.contains_key(g) && m[g] != now[g] by {
            assert(order.contains(g) == now.contains_key(g));
        }
    }
    res
}

impl AppState {
    /// Drops, out of every group, the members that are no contexts and the
    /// children that are no groups, and untangles the nesting. The groups
    /// that changed, ascending, are to be persisted. This comes after the
    /// unfinished renames are resumed: to it an old name is merely one that is
    /// not there.
    pub fn reconcile_groups(&mut self) -> (touched: Vec<String>)
        requires
            old(self).wf(),
        ensures
            final(self).wf(),
            old(self).nonces_kept(*final(self)),
            *final(self) == (AppState { groups: final(self).groups, ..*old(self) }),
            group_ops::groups_of(*final(self)) == reconciled(
                group_ops::groups_of(*old(self)),
                old(self).registry@.dom(),
            ),
            names::ascending(names::views(touched@)),
            forall|g: Seq<char>| #[trigger]
                names::views(touched@).contains(g) <==> group_ops::groups_of(*old(self)).contains_key(g)
                    && group_ops::groups_of(*old(self))[g] != group_ops::groups_of(*final(self))[g],
    {
        let mut fresh = copy_groups(&self.groups);
        drop_members(&mut fresh, &self.registry);
        drop_dangling(&mut fresh);
        let repaired = repair_nesting(fresh);
        proof {
            let m = groups::group_map(self.groups);
            let pruned = replication::without_dangling(without_members(m, self.registry@.dom()));
            self.groups.order_is_domain();
            assert forall|n: Seq<char>| #[trigger] m.contains_key(n) implies m[n].groups.finite() by {
                self.groups@[n].groups.order_is_members();
            }
            assert(m.dom() =~= self.groups@.dom());
            pruned_is_finite(m, self.registry@.dom());
            groups::repair_only_drops_edges(pruned);
            assert(pruned.dom() =~= m.dom());
        }
        let touched = changed_groups(&self.groups, &repaired);
        self.groups = repaired;
        touched
    }
}

proof fn pruned_is_finite(m: replication::GroupMap, contexts: Set<Seq<char>>)
    requires
        m.dom().finite(),
        forall|n: Seq<char>| #[trigger] m.contains_key(n) ==> m[n].groups.finite(),
    ensures
        replication::without_dangling(without_members(m, contexts)).dom() == m.dom(),
        forall|n: Seq<char>| #[trigger]
            m.contains_key(n) ==> replication::without_dangling(without_members(m, contexts))[n] == (groups::GroupView {
                contexts: m[n].contexts.intersect(contexts),
                groups: m[n].groups.intersect(m.dom()),
                ..m[n]
            }),
        forall|n: Seq<char>| #[trigger]
            replication::without_dangling(without_members(m, contexts)).contains_key(n) ==> replication::without_dangling(
                without_members(m, contexts),
            )[n].groups.finite(),
{
    let known = without_members(m, contexts);
    assert(known.dom() =~= m.dom());
    let pruned = replication::without_dangling(known);
    assert(pruned.dom() =~= m.dom());
}

/// After a reconciliation every group is still there with its description,
/// with those of its members that are contexts and no others; it has no new
/// child, every child is a group, and the nesting fits.
pub proof fn reconciled_groups_are_sound(m: replication::GroupMap, contexts: Set<Seq<char>>)
    requires
        m.dom().finite(),
        forall|n: Seq<char>| #[trigger] m.contains_key(n) ==> m[n].groups.finite(),
    ensures
        reconciled(m, contexts).dom() == m.dom(),
        groups::nesting_fits(reconciled(m, contexts)),
        forall|n: Seq<char>| #[trigger]
            reconciled(m, contexts).contains_key(n) ==> {
                let now = reconciled(m, contexts)[n];
                &&& now.description == m[n].description
                &&& now.contexts == m[n].contexts.intersect(contexts)
                &&& now.groups.subset_of(m[n].groups)
                &&& now.groups.subset_of(m.dom())
            },
{
    let pruned = replication::without_dangling(without_members(m, contexts));
    pruned_is_finite(m, contexts);
    groups::repaired_nesting_fits(pruned);
    groups::repair_only_drops_edges(pruned);
    let now = reconciled(m, contexts);
    assert forall|n: Seq<char>| #[trigger] now.contains_key(n) implies {
        &&& now[n].description == m[n].description
        &&& now[n].contexts == m[n].contexts.intersect(contexts)
        &&& now[n].groups.subset_of(m[n].groups)
        &&& now[n].groups.subset_of(m.dom())
    } by {
        assert(pruned.contains_key(n));
        assert(m.contains_key(n));
    }
}

/// Groups that are in order are left as they stand: a start that follows a
/// clean stop rewrites no group.
pub proof fn sound_groups_are_left_alone(m: replication::GroupMap, contexts: Set<Seq<char>>)
    requires
        m.dom().finite(),
        groups::nesting_fits(m),
        forall|n: Seq<char>| #[trigger]
            m.contains_key(n) ==> {
                &&& m[n].groups.finite()
                &&& m[n].groups.subset_of(m.dom())
                &&& m[n].contexts.subset_of(contexts)
            },
    ensures
        reconciled(m, contexts) == m,
{
    let pruned = replication::without_dangling(without_members(m, contexts));
    pruned_is_finite(m, contexts);
    assert forall|n: Seq<char>| #[trigger] m.contains_key(n) implies pruned[n] == m[n] by {
        assert(m[n].contexts.intersect(contexts) =~= m[n].contexts);
        assert(m[n].groups.intersect(m.dom()) =~= m[n].groups);
    }
    assert(pruned =~= m);
    groups::fitting_nesting_is_left_alone(m);
}

/// One reconciliation is enough: the next, over the same contexts, changes
/// nothing.
pub proof fn reconciling_again_changes_nothing(m: replication::GroupMap, contexts: Set<Seq<char>>)
    requires
        m.dom().finite(),
        forall|n: Seq<char>| #[trigger] m.contains_key(n) ==> m[n].groups.finite(),
    ensures
        reconciled(reconciled(m, contexts), contexts) == reconciled(m, contexts),
{
    reconciled_groups_are_sound(m, contexts);
    let now = reconciled(m, contexts);
    assert forall|n: Seq<char>| #[trigger] now.contains_key(n) implies {
        &&& now[n].groups.finite()
        &&& now[n].groups.subset_of(now.dom())
        &&& now[n].contexts.subset_of(contexts)
    } by {
        assert(m.contains_key(n));
        vstd::set_lib::lemma_set_subset_finite(m[n].groups, now[n].groups);
    }
    sound_groups_are_left_alone(now, contexts);
}

/// Members that are no contexts go; every other member, every child and
/// every description stays.
pub proof fn only_lost_members_go(m: replication::GroupMap, contexts: Set<Seq<char>>, g: Seq<char>, n: Seq<char>)
    ensures
        without_members(m, contexts).contains_key(g) == m.contains_key(g),
        m.contains_key(g) ==> {
            let now = without_members(m, contexts)[g];
            &&& now.contexts.contains(n) <==> m[g].contexts.contains(n) && contexts.contains(n)
            &&& now.groups == m[g].groups
            &&& now.description == m[g].description
        },
{
}

} // verus!
