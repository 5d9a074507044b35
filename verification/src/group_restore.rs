//! Restoring a set of group records: the set is judged as a whole, then the
//! records land children first.
use crate::group_ops;
use crate::group_ops::check_member_caps;
use crate::groups;
use crate::groups::{
    add_all, context_closure, copy_groups, first_missing, nesting_depth, validate_nesting, GroupRecord, NestingViolation,
};
use crate::names;
use crate::names::{NameMap, NameSet};
use crate::ranking;
use crate::ranking::rank;
use crate::state::{AppState, IoFault};
use vstd::prelude::*;

verus! {

/// What a restore does to one group.
#[derive(Clone, Copy, PartialEq, Eq, Structural, Debug)]
pub enum GroupRestoreOutcome {
    Created,
    Replaced,
    Unchanged,
}

impl GroupRestoreOutcome {
    pub fn as_str(&self) -> (res: &'static str)
        ensures
            res@ == match *self {
                GroupRestoreOutcome::Created => "created"@,
                GroupRestoreOutcome::Replaced => "replaced"@,
                GroupRestoreOutcome::Unchanged => "unchanged"@,
            },
    {
        match self {
            GroupRestoreOutcome::Created => "created",
            GroupRestoreOutcome::Replaced => "replaced",
            GroupRestoreOutcome::Unchanged => "unchanged",
        }
    }
}

pub enum RestoreGroupsError {
    InvalidName,
    Duplicate(String),
    OverCap { group: String, field: &'static str },
    NoSuchContext { group: String, context: String },
    NoSuchChild { group: String, child: String },
    Nesting(NestingViolation),
    Timeout { applied: usize },
    Io { group: String, applied: usize, error: IoFault },
}

impl RestoreGroupsError {
    /// How many records stand as asked for all the same.
    pub fn applied(&self) -> (res: usize)
        ensures
            res == match *self {
                RestoreGroupsError::Timeout { applied } => applied,
                RestoreGroupsError::Io { group, applied, error } => applied,
                _ => 0,
            },
    {
        match self {
            RestoreGroupsError::Timeout { applied } => *applied,
            RestoreGroupsError::Io { group: _, applied, error: _ } => *applied,
            _ => 0,
        }
    }
}

/// The records as they are read: a name and what the group shall say.
pub open spec fn record_views(records: Seq<(String, GroupRecord)>) -> Seq<(Seq<char>, groups::GroupView)> {
    records.map_values(|r: (String, GroupRecord)| (r.0@, r.1@))
}

pub open spec fn records_wf(records: Seq<(String, GroupRecord)>) -> bool {
    forall|i: int| 0 <= i < records.len() ==> (#[trigger] records[i]).1.wf()
}

/// The groups with every record in its place.
pub open spec fn overlaid(
    m: Map<Seq<char>, groups::GroupView>,
    records: Seq<(Seq<char>, groups::GroupView)>,
) -> Map<Seq<char>, groups::GroupView>
    decreases records.len(),
{
    if records.len() == 0 {
        m
    } else {
        overlaid(m, records.drop_last()).insert(records.last().0, records.last().1)
    }
}

/// An earlier record has the same name.
pub open spec fn repeats(records: Seq<(Seq<char>, groups::GroupView)>, i: int) -> bool {
    exists|j: int| 0 <= j < i && (#[trigger] records[j]).0 == records[i].0
}

/// A record that needs no other name to be judged passes.
pub open spec fn sound(state: AppState, records: Seq<(Seq<char>, groups::GroupView)>, i: int) -> bool {
    &&& records[i].0.len() > 0
    &&& !repeats(records, i)
    &&& group_ops::over_cap(state.options.max_group_members, records[i].1.contexts, records[i].1.groups) is None
}

/// Every member of a record is a context and every child a group, standing or
/// of the set itself.
pub open spec fn anchored(state: AppState, records: Seq<(Seq<char>, groups::GroupView)>, i: int) -> bool {
    &&& records[i].1.contexts.subset_of(state.registry@.dom())
    &&& records[i].1.groups.subset_of(overlaid(group_ops::groups_of(state), records).dom())
}

/// What a restore does to the `i`-th group.
pub open spec fn restore_outcome(m: Map<Seq<char>, groups::GroupView>, record: (Seq<char>, groups::GroupView)) -> GroupRestoreOutcome {
    if !m.contains_key(record.0) {
        GroupRestoreOutcome::Created
    } else if m[record.0] == record.1 {
        GroupRestoreOutcome::Unchanged
    } else {
        GroupRestoreOutcome::Replaced
    }
}

/// The keys by which records are ordered: children before their parents.
pub open spec fn depth_keys(
    prospective: Map<Seq<char>, groups::GroupView>,
    records: Seq<(Seq<char>, groups::GroupView)>,
) -> Seq<(u64, u64)> {
    records.map_values(|r: (Seq<char>, groups::GroupView)| (groups::depth(prospective, r.0) as u64, 0u64))
}

/// A set of records that passed: what happens to each, the order in which
/// they land, and how far the landing is.
pub struct RestorePlan {
    pub outcomes: Vec<(String, GroupRestoreOutcome)>,
    pub order: Vec<usize>,
    /// How many positions of the order are done. Each of them stands as
    /// asked for.
    pub applied: usize,
}

/// A plan that fits the state it was made in.
pub open spec fn plan_is(state: AppState, records: Seq<(Seq<char>, groups::GroupView)>, plan: RestorePlan) -> bool {
    let m = group_ops::groups_of(state);
    &&& plan.applied == 0
    &&& plan.outcomes.len() == records.len()
    &&& forall|i: int|
        0 <= i < records.len() ==> (#[trigger] plan.outcomes@[i]).0@ == records[i].0 && plan.outcomes@[i].1
            == restore_outcome(m, records[i])
    &&& ranking::is_ranking(depth_keys(overlaid(m, records), records), plan.order@)
}

/// What [`AppState::restore_groups`] answers.
pub open spec fn restore_gate(
    state: AppState,
    records: Seq<(Seq<char>, groups::GroupView)>,
    res: Result<RestorePlan, RestoreGroupsError>,
) -> bool {
    let cap = state.options.max_group_members;
    let prospective = overlaid(group_ops::groups_of(state), records);
    match res {
        Err(RestoreGroupsError::InvalidName) => exists|i: int| #[trigger]
            first_unsound(state, records, i) && records[i].0.len() == 0,
        Err(RestoreGroupsError::Duplicate(name)) => exists|i: int| #[trigger]
            first_unsound(state, records, i) && records[i].0.len() > 0 && repeats(records, i) && name@ == records[i].0,
        Err(RestoreGroupsError::OverCap { group, field }) => exists|i: int| #[trigger]
            first_unsound(state, records, i) && records[i].0.len() > 0 && !repeats(records, i) && group@ == records[i].0
                && group_ops::over_cap(cap, records[i].1.contexts, records[i].1.groups) == Some(field@),
        Err(RestoreGroupsError::NoSuchContext { group, context }) => all_sound(state, records) && exists|i: int| #[trigger]
            first_unanchored(state, records, i) && group@ == records[i].0 && groups::first_missing_is(
                records[i].1.contexts,
                state.registry@.dom(),
                context@,
            ),
        Err(RestoreGroupsError::NoSuchChild { group, child }) => all_sound(state, records) && exists|i: int| #[trigger]
            first_unanchored(state, records, i) && group@ == records[i].0 && records[i].1.contexts.subset_of(
                state.registry@.dom(),
            ) && groups::first_missing_is(records[i].1.groups, prospective.dom(), child@),
        Err(RestoreGroupsError::Nesting(violation)) => all_sound(state, records) && all_anchored(state, records)
            && groups::nesting_verdict(prospective, Err(violation)),
        Err(_) => false,
        Ok(plan) => all_sound(state, records) && all_anchored(state, records) && groups::nesting_fits(prospective) && plan_is(
            state,
            records,
            plan,
        ),
    }
}

pub open spec fn all_sound(state: AppState, records: Seq<(Seq<char>, groups::GroupView)>) -> bool {
    forall|i: int| 0 <= i < records.len() ==> #[trigger] sound(state, records, i)
}

pub open spec fn all_anchored(state: AppState, records: Seq<(Seq<char>, groups::GroupView)>) -> bool {
    forall|i: int| 0 <= i < records.len() ==> #[trigger] anchored(state, records, i)
}

pub open spec fn first_unsound(state: AppState, records: Seq<(Seq<char>, groups::GroupView)>, i: int) -> bool {
    &&& 0 <= i < records.len() && !sound(state, records, i)
    &&& forall|j: int| 0 <= j < i ==> #[trigger] sound(state, records, j)
}

pub open spec fn first_unanchored(state: AppState, records: Seq<(Seq<char>, groups::GroupView)>, i: int) -> bool {
    &&& 0 <= i < records.len() && !anchored(state, records, i)
    &&& forall|j: int| 0 <= j < i ==> #[trigger] anchored(state, records, j)
}

/// The overlaid groups are the standing ones and the records' names.
pub proof fn overlaid_names(m: Map<Seq<char>, groups::GroupView>, records: Seq<(Seq<char>, groups::GroupView)>)
    ensures
        forall|n: Seq<char>| #[trigger]
            overlaid(m, records).contains_key(n) <==> m.contains_key(n) || exists|i: int|
                0 <= i < records.len() && (#[trigger] records[i]).0 == n,
    decreases records.len(),
{
    if records.len() > 0 {
        let rest = records.drop_last();
        overlaid_names(m, rest);
        assert forall|n: Seq<char>| #[trigger]
            overlaid(m, records).contains_key(n) <==> m.contains_key(n) || exists|i: int|
                0 <= i < records.len() && (#[trigger] records[i]).0 == n by {
            if overlaid(m, records).contains_key(n) && !m.contains_key(n) {
                if n == records.last().0 {
                    assert(records[records.len() - 1].0 == n);
                } else {
                    assert(overlaid(m, rest).contains_key(n));
                    let i = choose|i: int| 0 <= i < rest.len() && (#[trigger] rest[i]).0 == n;
                    assert(records[i].0 == n);
                }
            }
            if exists|i: int| 0 <= i < records.len() && (#[trigger] records[i]).0 == n {
                let i = choose|i: int| 0 <= i < records.len() && (#[trigger] records[i]).0 == n;
                if i < rest.len() {
                    assert(rest[i].0 == n);
                    assert(overlaid(m, rest).contains_key(n));
                }
            }
            if m.contains_key(n) {
                assert(overlaid(m, rest).contains_key(n));
            }
        }
    }
}

/// With no name twice, every record stands in the overlaid groups, and what
/// is not in the set stands as it was.
pub proof fn overlaid_records(m: Map<Seq<char>, groups::GroupView>, records: Seq<(Seq<char>, groups::GroupView)>)
    requires
        forall|i: int| 0 <= i < records.len() ==> !#[trigger] repeats(records, i),
    ensures
        forall|i: int| 0 <= i < records.len() ==> overlaid(m, records).contains_key((#[trigger] records[i]).0) && overlaid(
            m,
            records,
        )[records[i].0] == records[i].1,
        forall|n: Seq<char>| #[trigger]
            m.contains_key(n) && (forall|i: int| 0 <= i < records.len() ==> (#[trigger] records[i]).0 != n) ==> overlaid(
                m,
                records,
            ).contains_key(n) && overlaid(m, records)[n] == m[n],
    decreases records.len(),
{
    if records.len() > 0 {
        let rest = records.drop_last();
        assert forall|i: int| 0 <= i < rest.len() implies !#[trigger] repeats(rest, i) by {
            assert(!repeats(records, i));
            if repeats(rest, i) {
                let j = choose|j: int| 0 <= j < i && (#[trigger] rest[j]).0 == rest[i].0;
                assert(records[j].0 == records[i].0);
            }
        }
        overlaid_records(m, rest);
        let last = records.len() - 1;
        assert(!repeats(records, last));
        assert forall|i: int| 0 <= i < records.len() implies overlaid(m, records).contains_key((#[trigger] records[i]).0)
            && overlaid(m, records)[records[i].0] == records[i].1 by {
            if i < last {
                assert(rest[i] == records[i]);
            }
        }
        assert forall|n: Seq<char>| #[trigger]
            m.contains_key(n) && (forall|i: int| 0 <= i < records.len() ==> (#[trigger] records[i]).0 != n) implies overlaid(
            m,
            records,
        ).contains_key(n) && overlaid(m, records)[n] == m[n] by {
            assert(records[last].0 != n);
            assert forall|i: int| 0 <= i < rest.len() implies (#[trigger] rest[i]).0 != n by {
                assert(records[i].0 != n);
            }
        }
    }
}

/// The groups with every record in its place.
fn overlay(base: &NameMap<GroupRecord>, records: &Vec<(String, GroupRecord)>) -> (res: NameMap<GroupRecord>)
    requires
        groups::groups_wf(*base),
        records_wf(records@),
    ensures
        groups::groups_wf(res),
        groups::group_map(res) == overlaid(groups::group_map(*base), record_views(records@)),
        res@.dom() == overlaid(groups::group_map(*base), record_views(records@)).dom(),
{
    let ghost m = groups::group_map(*base);
    let ghost views = record_views(records@);
    let mut res = copy_groups(base);
    let mut i: usize = 0;
    assert(views.take(0) =~= Seq::empty());
    while i < records.len()
        invariant
            records_wf(records@),
            views == record_views(records@),
            i <= records.len(),
            groups::groups_wf(res),
            groups::group_map(res) == overlaid(m, views.take(i as int)),
        decreases records.len() - i,
    {
        let name = records[i].0.clone();
        let record = records[i].1.copy();
        let ghost before = groups::group_map(res);
        res.insert(name, record);
        proof {
            assert(groups::group_map(res) =~= before.insert(name@, record@));
            assert(views.take(i + 1).drop_last() =~= views.take(i as int));
            assert(views.take(i + 1).last() == views[i as int]);
        }
        i = i + 1;
    }
    proof {
        assert(views.take(i as int) =~= views);
        assert(groups::group_map(res).dom() =~= res@.dom());
    }
    res
}

impl AppState {
    /// Judges a set of records before anything is written: names, caps,
    /// members, children and the nesting that results. A refusal applies
    /// nothing. What passes is a plan whose steps
    /// [`AppState::restore_step`] hands out.
    pub fn restore_groups(&self, records: &Vec<(String, GroupRecord)>) -> (res: Result<RestorePlan, RestoreGroupsError>)
        requires
            self.wf(),
            records_wf(records@),
        ensures
            restore_gate(*self, record_views(records@), res),
    {
        let ghost views = record_views(records@);
        let ghost m = group_ops::groups_of(*self);
        let cap: usize = self.options.max_group_members;
        let mut incoming = NameSet::new();
        let mut i: usize = 0;
        while i < records.len()
            invariant
                self.wf(),
                records_wf(records@),
                views == record_views(records@),
                cap == self.options.max_group_members,
                i <= records.len(),
                incoming.wf(),
                forall|n: Seq<char>| #[trigger]
                    incoming@.contains(n) <==> exists|j: int| 0 <= j < i && (#[trigger] views[j]).0 == n,
                forall|j: int| 0 <= j < i ==> #[trigger] sound(*self, views, j),
            decreases records.len() - i,
        {
            let name = &records[i].0;
            assert(views[i as int].0 == name@ && views[i as int].1 == records@[i as int].1@);
            if name.as_str().is_empty() {
                assert(first_unsound(*self, views, i as int));
                return Err(RestoreGroupsError::InvalidName);
            }
            if !incoming.insert(name.clone()) {
                assert(repeats(views, i as int));
                assert(first_unsound(*self, views, i as int));
                return Err(RestoreGroupsError::Duplicate(name.clone()));
            }
            assert(!repeats(views, i as int));
            match check_member_caps(cap, &records[i].1.contexts, &records[i].1.groups) {
                Ok(_) => {},
                Err(field) => {
                    assert(first_unsound(*self, views, i as int));
                    return Err(RestoreGroupsError::OverCap { group: name.clone(), field });
                },
            }
            assert(sound(*self, views, i as int));
            i = i + 1;
        }
        let prospective = overlay(&self.groups, records);
        let mut i: usize = 0;
        while i < records.len()
            invariant
                self.wf(),
                records_wf(records@),
                views == record_views(records@),
                i <= records.len(),
                groups::groups_wf(prospective),
                prospective@.dom() == overlaid(group_ops::groups_of(*self), views).dom(),
                all_sound(*self, views),
                forall|j: int| 0 <= j < i ==> #[trigger] anchored(*self, views, j),
            decreases records.len() - i,
        {
            let name = &records[i].0;
            assert(views[i as int].0 == name@ && views[i as int].1 == records@[i as int].1@);
            if let Some(context) = first_missing(&records[i].1.contexts, &self.registry) {
                assert(first_unanchored(*self, views, i as int)) by {
                    assert(records@[i as int].1.contexts@.contains(context@));
                }
                return Err(RestoreGroupsError::NoSuchContext { group: name.clone(), context });
            }
            if let Some(child) = first_missing(&records[i].1.groups, &prospective) {
                assert(first_unanchored(*self, views, i as int)) by {
                    assert(records@[i as int].1.groups@.contains(child@));
                }
                return Err(RestoreGroupsError::NoSuchChild { group: name.clone(), child });
            }
            assert(anchored(*self, views, i as int));
            i = i + 1;
        }
        match validate_nesting(&prospective) {
            Ok(_) => {},
            Err(violation) => {
                return Err(RestoreGroupsError::Nesting(violation));
            },
        }
        let mut outcomes: Vec<(String, GroupRestoreOutcome)> = Vec::new();
        let mut keys: Vec<(u64, u64)> = Vec::new();
        let mut i: usize = 0;
        while i < records.len()
            invariant
                self.wf(),
                records_wf(records@),
                views == record_views(records@),
                m == group_ops::groups_of(*self),
                groups::groups_wf(prospective),
                groups::group_map(prospective) == overlaid(m, views),
                i <= records.len(),
                outcomes.len() == i,
                forall|j: int|
                    0 <= j < i ==> (#[trigger] outcomes@[j]).0@ == views[j].0 && outcomes@[j].1 == restore_outcome(m, views[j]),
                keys@ == depth_keys(overlaid(m, views), views).take(i as int),
            decreases records.len() - i,
        {
            let name = &records[i].0;
            let outcome = match self.groups.get(name.as_str()) {
                Some(standing) => {
                    if standing.equals(&records[i].1) {
                        GroupRestoreOutcome::Unchanged
                    } else {
                        GroupRestoreOutcome::Replaced
                    }
                },
                None => GroupRestoreOutcome::Created,
            };
            outcomes.push((name.clone(), outcome));
            let depth: u64 = nesting_depth(&prospective, name.as_str());
            keys.push((depth, 0));
            assert(keys@ =~= depth_keys(overlaid(m, views), views).take(i + 1));
            i = i + 1;
        }
        assert(keys@ =~= depth_keys(overlaid(m, views), views));
        let order = rank(&keys);
        Ok(RestorePlan { outcomes, order, applied: 0 })
    }

    /// Every context a scoped key must hold to restore `records`: what the
    /// named groups address as they stand, and what they would address.
    pub fn group_restore_involves(&self, records: &Vec<(String, GroupRecord)>) -> (res: NameSet)
        requires
            self.wf(),
            records_wf(records@),
        ensures
            res.wf(),
            ({
                let m = group_ops::groups_of(*self);
                let views = record_views(records@);
                let roots = views.map_values(|r: (Seq<char>, groups::GroupView)| r.0).to_set();
                res@ == groups::addressed(m, roots).union(groups::addressed(overlaid(m, views), roots))
            }),
    {
        let ghost views = record_views(records@);
        let mut roots: Vec<String> = Vec::new();
        let mut i: usize = 0;
        let ghost want = views.map_values(|r: (Seq<char>, groups::GroupView)| r.0);
        while i < records.len()
            invariant
                views == record_views(records@),
                want == views.map_values(|r: (Seq<char>, groups::GroupView)| r.0),
                i <= records.len(),
                names::views(roots@) == want.take(i as int),
            decreases records.len() - i,
        {
            let ghost was = roots@;
            roots.push(records[i].0.clone());
            assert(names::views(roots@) =~= names::views(was).push(records@[i as int].0@));
            assert(names::views(roots@) =~= want.take(i + 1));
            i = i + 1;
        }
        assert(want.take(i as int) =~= want);
        let mut involved = context_closure(&self.groups, &roots);
        let prospective = overlay(&self.groups, records);
        let more = context_closure(&prospective, &roots);
        add_all(&mut involved, &more);
        involved
    }

    /// The next step of a restore. A record that stands already counts as
    /// landed; the deadline is looked at before every record.
    pub fn restore_step(&self, plan: &mut RestorePlan, expired: bool) -> (res: RestoreStep)
        requires
            old(plan).order.len() == old(plan).outcomes.len(),
            forall|a: int| 0 <= a < old(plan).order.len() ==> #[trigger] old(plan).order@[a] < old(plan).outcomes.len(),
            old(plan).applied <= old(plan).order.len(),
        ensures
            final(plan).outcomes == old(plan).outcomes,
            final(plan).order == old(plan).order,
            ({
                let at = old(plan).applied as int;
                if at == old(plan).order.len() {
                    res is Done && final(plan).applied == at
                } else if expired {
                    res == RestoreStep::Failed(RestoreGroupsError::Timeout { applied: at as usize }) && final(plan).applied == at
                } else if old(plan).outcomes@[old(plan).order@[at] as int].1 == GroupRestoreOutcome::Unchanged {
                    res is Skipped && final(plan).applied == at + 1
                } else {
                    res == RestoreStep::Write(old(plan).order@[at]) && final(plan).applied == at
                }
            }),
    {
        if plan.applied == plan.order.len() {
            return RestoreStep::Done;
        }
        if expired {
            return RestoreStep::Failed(RestoreGroupsError::Timeout { applied: plan.applied });
        }
        let index: usize = plan.order[plan.applied];
        if plan.outcomes[index].1 == GroupRestoreOutcome::Unchanged {
            plan.applied = plan.applied + 1;
            return RestoreStep::Skipped;
        }
        RestoreStep::Write(index)
    }

    /// Takes the record at `index` in, once it was persisted. A record that
    /// could not be persisted stops the restore; what landed stands.
    pub fn restore_written(
        &mut self,
        records: &Vec<(String, GroupRecord)>,
        plan: &mut RestorePlan,
        index: usize,
        written: Result<(), IoFault>,
    ) -> (res: Result<(), RestoreGroupsError>)
        requires
            old(self).wf(),
            records_wf(records@),
            index < records.len(),
            old(plan).applied < old(plan).order.len(),
            index == old(plan).order@[old(plan).applied as int],
        ensures
            final(self).wf(),
            old(self).nonces_kept(*final(self)),
            *final(self) == (AppState { groups: final(self).groups, ..*old(self) }),
            final(plan).outcomes == old(plan).outcomes,
            final(plan).order == old(plan).order,
            match written {
                Ok(_) => {
                    &&& res is Ok
                    &&& group_ops::groups_of(*final(self)) == group_ops::groups_of(*old(self)).insert(
                        records@[index as int].0@,
                        records@[index as int].1@,
                    )
                    &&& final(plan).applied == old(plan).applied + 1
                },
                Err(fault) => {
                    &&& res matches Err(RestoreGroupsError::Io { group, applied, error })
                    &&& group@ == records@[index as int].0@ && applied == old(plan).applied && error == fault
                    &&& final(self).groups@ == old(self).groups@
                    &&& final(plan).applied == old(plan).applied
                },
            },
    {
        let name = records[index].0.clone();
        match written {
            Ok(_) => {
                self.groups.insert(name, records[index].1.copy());
                assert(group_ops::groups_of(*self) =~= group_ops::groups_of(*old(self)).insert(
                    records@[index as int].0@,
                    records@[index as int].1@,
                ));
                plan.applied = plan.applied + 1;
                Ok(())
            },
            Err(fault) => Err(RestoreGroupsError::Io { group: name, applied: plan.applied, error: fault }),
        }
    }
}

/// What a restore has to do next.
pub enum RestoreStep {
    /// Everything landed.
    Done,
    /// The record at the front of the order stood already.
    Skipped,
    /// Persist the record at this index, then report to
    /// [`AppState::restore_written`].
    Write(usize),
    /// The restore stops here.
    Failed(RestoreGroupsError),
}

/// The groups once the first `n` records of the order have landed.
pub open spec fn landed(
    m: Map<Seq<char>, groups::GroupView>,
    records: Seq<(Seq<char>, groups::GroupView)>,
    order: Seq<usize>,
    n: nat,
) -> Map<Seq<char>, groups::GroupView>
    decreases n,
{
    if n == 0 {
        m
    } else {
        let r = records[order[n - 1] as int];
        landed(m, records, order, (n - 1) as nat).insert(r.0, r.1)
    }
}

proof fn landed_is(
    m: Map<Seq<char>, groups::GroupView>,
    records: Seq<(Seq<char>, groups::GroupView)>,
    order: Seq<usize>,
    n: nat,
)
    requires
        forall|i: int| 0 <= i < records.len() ==> !#[trigger] repeats(records, i),
        forall|a: int| 0 <= a < order.len() ==> #[trigger] order[a] < records.len(),
        forall|a: int, b: int| 0 <= a < b < order.len() ==> #[trigger] order[a] != #[trigger] order[b],
        n <= order.len(),
    ensures
        forall|a: int|
            0 <= a < n ==> landed(m, records, order, n).contains_key(records[#[trigger] order[a] as int].0) && landed(
                m,
                records,
                order,
                n,
            )[records[order[a] as int].0] == records[order[a] as int].1,
        forall|g: Seq<char>| #[trigger] m.contains_key(g) ==> landed(m, records, order, n).contains_key(g),
        forall|g: Seq<char>| #[trigger]
            landed(m, records, order, n).contains_key(g) && (forall|a: int|
                0 <= a < n ==> records[#[trigger] order[a] as int].0 != g) ==> m.contains_key(g) && landed(
                m,
                records,
                order,
                n,
            )[g] == m[g],
    decreases n,
{
    if n > 0 {
        landed_is(m, records, order, (n - 1) as nat);
        let l = order[n - 1] as int;
        assert forall|a: int| 0 <= a < n implies landed(m, records, order, n).contains_key(
            records[#[trigger] order[a] as int].0,
        ) && landed(m, records, order, n)[records[order[a] as int].0] == records[order[a] as int].1 by {
            let i = order[a] as int;
            if a < n - 1 && records[i].0 == records[l].0 {
                assert(order[a] != order[n - 1]);
                if i < l {
                    assert(!repeats(records, l));
                } else {
                    assert(!repeats(records, i));
                }
            }
        }
        assert forall|g: Seq<char>| #[trigger]
            landed(m, records, order, n).contains_key(g) && (forall|a: int|
                0 <= a < n ==> records[#[trigger] order[a] as int].0 != g) implies m.contains_key(g) && landed(
            m,
            records,
            order,
            n,
        )[g] == m[g] by {
            assert(records[order[n - 1] as int].0 != g);
            let earlier = landed(m, records, order, (n - 1) as nat);
            assert(earlier.contains_key(g));
            assert forall|a: int| 0 <= a < n - 1 implies records[#[trigger] order[a] as int].0 != g by {}
        }
    }
}

/// Once every record of a plan has landed, the groups are the standing ones
/// overlaid with the whole set.
pub proof fn whole_set_lands(
    m: Map<Seq<char>, groups::GroupView>,
    records: Seq<(Seq<char>, groups::GroupView)>,
    order: Seq<usize>,
)
    requires
        forall|i: int| 0 <= i < records.len() ==> !#[trigger] repeats(records, i),
        ranking::is_ranking(depth_keys(overlaid(m, records), records), order),
    ensures
        landed(m, records, order, records.len()) == overlaid(m, records),
{
    let keys = depth_keys(overlaid(m, records), records);
    assert forall|a: int, b: int| 0 <= a < b < order.len() implies #[trigger] order[a] != #[trigger] order[b] by {
        assert(ranking::ranks_before(keys, order[a] as int, order[b] as int));
    }
    landed_is(m, records, order, records.len());
    overlaid_records(m, records);
    overlaid_names(m, records);
    let l = landed(m, records, order, records.len());
    let o = overlaid(m, records);
    assert forall|g: Seq<char>| l.contains_key(g) <==> o.contains_key(g) by {
        if l.contains_key(g) && !m.contains_key(g) {
            let a = choose|a: int| 0 <= a < records.len() && records[#[trigger] order[a] as int].0 == g;
            assert(records[order[a] as int].0 == g);
        }
        if o.contains_key(g) && !m.contains_key(g) {
            let i = choose|i: int| 0 <= i < records.len() && (#[trigger] records[i]).0 == g;
            assert(ranking::listed(order, i));
            let a = choose|a: int| 0 <= a < order.len() && #[trigger] order[a] == i;
            assert(records[order[a] as int].0 == g);
        }
    }
    assert forall|g: Seq<char>| l.contains_key(g) implies l[g] == o[g] by {
        if exists|a: int| 0 <= a < records.len() && records[#[trigger] order[a] as int].0 == g {
            let a = choose|a: int| 0 <= a < records.len() && records[#[trigger] order[a] as int].0 == g;
            assert(records[order[a] as int].0 == g);
        } else {
            assert(m.contains_key(g));
            assert forall|i: int| 0 <= i < records.len() implies (#[trigger] records[i]).0 != g by {
                assert(ranking::listed(order, i));
                let a = choose|a: int| 0 <= a < order.len() && #[trigger] order[a] == i;
                assert(records[order[a] as int].0 != g);
            }
        }
    }
    assert(l =~= o);
}

/// At every point of a landing, every child that a group names is a group:
/// the order brings children before their parents.
pub proof fn no_child_dangles(
    state: AppState,
    records: Seq<(Seq<char>, groups::GroupView)>,
    plan: RestorePlan,
    n: nat,
    g: Seq<char>,
)
    requires
        restore_gate(state, records, Ok(plan)),
        forall|p: Seq<char>| #[trigger] group_ops::groups_of(state).contains_key(p) ==> group_ops::groups_of(state)[p].groups.subset_of(
            group_ops::groups_of(state).dom(),
        ),
        n <= records.len(),
        landed(group_ops::groups_of(state), records, plan.order@, n).contains_key(g),
    ensures
        landed(group_ops::groups_of(state), records, plan.order@, n)[g].groups.subset_of(
            landed(group_ops::groups_of(state), records, plan.order@, n).dom(),
        ),
{
    let m = group_ops::groups_of(state);
    let order = plan.order@;
    let o = overlaid(m, records);
    let keys = depth_keys(o, records);
    assert forall|i: int| 0 <= i < records.len() implies !#[trigger] repeats(records, i) by {
        assert(sound(state, records, i));
    }
    assert forall|a: int, b: int| 0 <= a < b < order.len() implies #[trigger] order[a] != #[trigger] order[b] by {
        assert(ranking::ranks_before(keys, order[a] as int, order[b] as int));
    }
    landed_is(m, records, order, n);
    overlaid_records(m, records);
    overlaid_names(m, records);
    let l = landed(m, records, order, n);
    if exists|a: int| 0 <= a < n && records[#[trigger] order[a] as int].0 == g {
        let a = choose|a: int| 0 <= a < n && records[#[trigger] order[a] as int].0 == g;
        let i = order[a] as int;
        assert(l[g] == records[i].1);
        assert(anchored(state, records, i));
        assert forall|c: Seq<char>| l[g].groups.contains(c) implies l.dom().contains(c) by {
            assert(o.contains_key(c));
            if !m.contains_key(c) {
                let k = choose|k: int| 0 <= k < records.len() && (#[trigger] records[k]).0 == c;
                assert(o[g] == records[i].1);
                groups::child_is_shallower(o, g, c);
                assert(keys[k].0 < keys[i].0);
                assert(ranking::listed(order, k));
                let b = choose|b: int| 0 <= b < order.len() && #[trigger] order[b] == k;
                if b > a {
                    assert(ranking::ranks_before(keys, order[a] as int, order[b] as int));
                }
                assert(b < n);
                assert(l.contains_key(records[order[b] as int].0));
            }
        }
    } else {
        assert(m.contains_key(g) && l[g] == m[g]);
        assert forall|c: Seq<char>| l[g].groups.contains(c) implies l.dom().contains(c) by {
            assert(m[g].groups.contains(c));
            assert(m.contains_key(c));
        }
    }
}

/// Restoring the same set again changes nothing: every record is found to
/// stand as asked for.
pub proof fn restoring_again_changes_nothing(m: Map<Seq<char>, groups::GroupView>, records: Seq<(Seq<char>, groups::GroupView)>, i: int)
    requires
        forall|j: int| 0 <= j < records.len() ==> !#[trigger] repeats(records, j),
        0 <= i < records.len(),
    ensures
        restore_outcome(overlaid(m, records), records[i]) == GroupRestoreOutcome::Unchanged,
{
    overlaid_records(m, records);
}

/// A whole set that was restored leaves groups that are in order: the nesting
/// fits, both sets of each are under the cap, every child is a group and every
/// member a context.
pub proof fn restored_groups_are_in_order(
    was: AppState,
    records: Seq<(Seq<char>, groups::GroupView)>,
    plan: RestorePlan,
    after: AppState,
)
    requires
        was.groups_ok(),
        restore_gate(was, records, Ok(plan)),
        after == (AppState { groups: after.groups, ..was }),
        group_ops::groups_of(after) == landed(group_ops::groups_of(was), records, plan.order@, records.len()),
    ensures
        after.groups_ok(),
{
    let m = group_ops::groups_of(was);
    assert forall|i: int| 0 <= i < records.len() implies !#[trigger] repeats(records, i) by {
        assert(sound(was, records, i));
    }
    whole_set_lands(m, records, plan.order@);
    overlaid_records(m, records);
    overlaid_names(m, records);
    let o = overlaid(m, records);
    assert(after.groups@.dom() =~= o.dom());
    assert(was.groups@.dom() =~= m.dom());
    assert forall|g: Seq<char>| #[trigger] group_ops::groups_of(after).contains_key(g) implies after.group_ok(
        group_ops::groups_of(after)[g],
    ) by {
        if exists|i: int| 0 <= i < records.len() && (#[trigger] records[i]).0 == g {
            let i = choose|i: int| 0 <= i < records.len() && (#[trigger] records[i]).0 == g;
            assert(sound(was, records, i) && anchored(was, records, i));
        } else {
            assert(m.contains_key(g) && was.group_ok(m[g]));
            assert forall|c: Seq<char>| m[g].groups.contains(c) implies o.dom().contains(c) by {
                assert(m.contains_key(c));
            }
        }
    }
}

/// What a restore says it does to a group is what it does: a name that is not
/// there is made, a record that says the same is left, any other is
/// replaced.
pub proof fn outcomes_say_what_changes(m: Map<Seq<char>, groups::GroupView>, record: (Seq<char>, groups::GroupView))
    ensures
        restore_outcome(m, record) is Created <==> !m.contains_key(record.0),
        restore_outcome(m, record) is Unchanged <==> m.insert(record.0, record.1) == m,
        restore_outcome(m, record) is Replaced <==> m.contains_key(record.0) && m.insert(record.0, record.1) != m,
{
    if m.contains_key(record.0) && m[record.0] == record.1 {
        assert(m.insert(record.0, record.1) =~= m);
    } else {
        assert(m.insert(record.0, record.1).contains_key(record.0));
        assert(m.insert(record.0, record.1)[record.0] == record.1);
    }
}

/// Of a set with the same name twice the later record counts; groups that
/// the set does not name stay.
pub proof fn the_last_record_of_a_name_counts(
    m: Map<Seq<char>, groups::GroupView>,
    records: Seq<(Seq<char>, groups::GroupView)>,
    i: int,
    n: Seq<char>,
)
    ensures
        0 <= i < records.len() && (forall|j: int| i < j < records.len() ==> (#[trigger] records[j]).0 != records[i].0)
            ==> overlaid(m, records).contains_key(records[i].0) && overlaid(m, records)[records[i].0] == records[i].1,
        (forall|j: int| 0 <= j < records.len() ==> (#[trigger] records[j]).0 != n) ==> overlaid(m, records).contains_key(n)
            == m.contains_key(n) && (m.contains_key(n) ==> overlaid(m, records)[n] == m[n]),
    decreases records.len(),
{
    if records.len() > 0 {
        let rest = records.drop_last();
        the_last_record_of_a_name_counts(m, rest, i, n);
        if 0 <= i < records.len() && (forall|j: int| i < j < records.len() ==> (#[trigger] records[j]).0 != records[i].0) {
            if i < rest.len() {
                assert(records[records.len() - 1].0 != records[i].0);
                assert forall|j: int| i < j < rest.len() implies (#[trigger] rest[j]).0 != rest[i].0 by {
                    assert(rest[j] == records[j]);
                }
            }
        }
        if forall|j: int| 0 <= j < records.len() ==> (#[trigger] records[j]).0 != n {
            assert(records[records.len() - 1].0 != n);
            assert forall|j: int| 0 <= j < rest.len() implies (#[trigger] rest[j]).0 != n by {
                assert(rest[j] == records[j]);
            }
        }
    }
}

/// A plan lists every group with what happens to it, has applied none yet,
/// and brings every child of the set before its parents.
pub proof fn plans_bring_children_first(
    state: AppState,
    records: Seq<(Seq<char>, groups::GroupView)>,
    plan: RestorePlan,
    a: int,
    b: int,
)
    requires
        plan_is(state, records, plan),
        groups::nesting_fits(overlaid(group_ops::groups_of(state), records)),
        0 <= a < plan.order.len(),
        0 <= b < plan.order.len(),
        ({
            let m = overlaid(group_ops::groups_of(state), records);
            let parent = records[plan.order@[a] as int].0;
            let child = records[plan.order@[b] as int].0;
            m.contains_key(parent) && m.contains_key(child) && m[parent].groups.contains(child)
        }),
    ensures
        b < a,
        plan.applied == 0,
        plan.outcomes.len() == records.len(),
        plan.order.len() == records.len(),
        plan.outcomes@[a].0@ == records[a].0,
{
    let m = overlaid(group_ops::groups_of(state), records);
    let keys = depth_keys(m, records);
    let parent = records[plan.order@[a] as int].0;
    let child = records[plan.order@[b] as int].0;
    groups::child_is_shallower(m, parent, child);
    assert(plan.order@[a] < keys.len() && plan.order@[b] < keys.len());
    if a < b {
        assert(ranking::ranks_before(keys, plan.order@[a] as int, plan.order@[b] as int));
    }
    assert(plan.outcomes@[a].0@ == records[a].0);
}

/// A record is sound exactly where its name says something, no record before
/// it has that name, and both its sets keep to the cap; it is anchored
/// exactly where every context that it names is there and every child stands
/// or comes with the set.
pub proof fn records_are_judged_by_what_is_there(
    state: AppState,
    records: Seq<(Seq<char>, groups::GroupView)>,
    i: int,
)
    requires
        0 <= i < records.len(),
    ensures
        sound(state, records, i) <==> {
            &&& records[i].0.len() > 0
            &&& forall|j: int| 0 <= j < i ==> (#[trigger] records[j]).0 != records[i].0
            &&& records[i].1.contexts.len() <= state.options.max_group_members
            &&& records[i].1.groups.len() <= state.options.max_group_members
        },
        anchored(state, records, i) <==> {
            &&& forall|c: Seq<char>| #[trigger] records[i].1.contexts.contains(c) ==> state.registry@.contains_key(c)
            &&& forall|g: Seq<char>| #[trigger]
                records[i].1.groups.contains(g) ==> state.groups@.contains_key(g) || exists|j: int|
                    0 <= j < records.len() && (#[trigger] records[j]).0 == g
        },
{
    let m = group_ops::groups_of(state);
    overlaid_names(m, records);
    assert forall|g: Seq<char>| overlaid(m, records).dom().contains(g) == (state.groups@.contains_key(g) || exists|j: int|
        0 <= j < records.len() && (#[trigger] records[j]).0 == g) by {
        assert(overlaid(m, records).contains_key(g) == overlaid(m, records).dom().contains(g));
        assert(m.contains_key(g) == state.groups@.contains_key(g));
    }
    let members = forall|c: Seq<char>| #[trigger] records[i].1.contexts.contains(c) ==> state.registry@.contains_key(c);
    let children = forall|g: Seq<char>| #[trigger]
        records[i].1.groups.contains(g) ==> state.groups@.contains_key(g) || exists|j: int|
            0 <= j < records.len() && (#[trigger] records[j]).0 == g;
    assert(members == records[i].1.contexts.subset_of(state.registry@.dom()));
    assert(children == records[i].1.groups.subset_of(overlaid(m, records).dom()));
}

/// A set is restored exactly where every record is sound and anchored and the
/// nesting it would make fits. What is refused is refused for the first
/// record that is unsound, by what is wrong with it; then for the first that
/// is not anchored, members before children; then for the nesting.
pub proof fn sets_are_restored_whole_or_refused(
    state: AppState,
    records: Seq<(Seq<char>, groups::GroupView)>,
    res: Result<RestorePlan, RestoreGroupsError>,
    i: int,
)
    requires
        restore_gate(state, records, res),
        group_ops::groups_of(state).dom().finite(),
    ensures
        ({
            let cap = state.options.max_group_members;
            let first = 0 <= i < records.len() && !sound(state, records, i) && forall|j: int|
                0 <= j < i ==> #[trigger] sound(state, records, j);
            let sounds = forall|j: int| 0 <= j < records.len() ==> #[trigger] sound(state, records, j);
            let anchors = forall|j: int| 0 <= j < records.len() ==> #[trigger] anchored(state, records, j);
            let loose = sounds && 0 <= i < records.len() && !anchored(state, records, i) && forall|j: int|
                0 <= j < i ==> #[trigger] anchored(state, records, j);
            let fits = groups::nesting_fits(overlaid(group_ops::groups_of(state), records));
            &&& res is Ok <==> sounds && anchors && fits
            &&& first && records[i].0.len() == 0 ==> (res matches Err(RestoreGroupsError::InvalidName))
            &&& first && records[i].0.len() > 0 && repeats(records, i) ==> (res matches Err(RestoreGroupsError::Duplicate(name))
                && name@ == records[i].0)
            &&& first && records[i].0.len() > 0 && !repeats(records, i) ==> (res matches Err(
                RestoreGroupsError::OverCap { group, field },
            ) && group@ == records[i].0 && (records[i].1.contexts.len() > cap ==> field@ == "member contexts"@) && (
            records[i].1.contexts.len() <= cap ==> field@ == "child groups"@))
            &&& loose && !records[i].1.contexts.subset_of(state.registry@.dom()) ==> (res matches Err(
                RestoreGroupsError::NoSuchContext { group, context },
            ) && group@ == records[i].0 && records[i].1.contexts.contains(context@) && !state.registry@.contains_key(context@))
            &&& loose && records[i].1.contexts.subset_of(state.registry@.dom()) ==> (res matches Err(
                RestoreGroupsError::NoSuchChild { group, child },
            ) && group@ == records[i].0 && records[i].1.groups.contains(child@) && !state.groups@.contains_key(child@))
            &&& (res matches Err(RestoreGroupsError::Nesting(_))) <==> sounds && anchors && !fits
        }),
{
    let m = group_ops::groups_of(state);
    let prospective = overlaid(m, records);
    let first = 0 <= i < records.len() && !sound(state, records, i) && forall|j: int|
        0 <= j < i ==> #[trigger] sound(state, records, j);
    let sounds = forall|j: int| 0 <= j < records.len() ==> #[trigger] sound(state, records, j);
    overlaid_names(m, records);
    overlaid_finite(m, records);
    assert(sounds == all_sound(state, records));
    match res {
        Err(RestoreGroupsError::InvalidName) => {
            let k = choose|k: int| #[trigger] first_unsound(state, records, k) && records[k].0.len() == 0;
            only_one_first(state, records, i, k);
        },
        Err(RestoreGroupsError::Duplicate(name)) => {
            let k = choose|k: int| #[trigger]
                first_unsound(state, records, k) && records[k].0.len() > 0 && repeats(records, k) && name@ == records[k].0;
            only_one_first(state, records, i, k);
        },
        Err(RestoreGroupsError::OverCap { group, field }) => {
            let k = choose|k: int| #[trigger]
                first_unsound(state, records, k) && records[k].0.len() > 0 && !repeats(records, k) && group@ == records[k].0
                    && group_ops::over_cap(
                    state.options.max_group_members,
                    records[k].1.contexts,
                    records[k].1.groups,
                ) == Some(field@);
            only_one_first(state, records, i, k);
        },
        Err(RestoreGroupsError::NoSuchContext { group, context }) => {
            let k = choose|k: int| #[trigger]
                first_unanchored(state, records, k) && group@ == records[k].0 && groups::first_missing_is(
                    records[k].1.contexts,
                    state.registry@.dom(),
                    context@,
                );
            only_one_first(state, records, i, k);
            groups::the_first_missing_name_is_reported(
                records[k].1.contexts,
                state.registry@.dom(),
                context@,
                context@,
            );
        },
        Err(RestoreGroupsError::NoSuchChild { group, child }) => {
            let k = choose|k: int| #[trigger]
                first_unanchored(state, records, k) && group@ == records[k].0 && records[k].1.contexts.subset_of(
                    state.registry@.dom(),
                ) && groups::first_missing_is(records[k].1.groups, prospective.dom(), child@);
            only_one_first(state, records, i, k);
            groups::the_first_missing_name_is_reported(records[k].1.groups, prospective.dom(), child@, child@);
            assert(!prospective.contains_key(child@));
            assert(m.contains_key(child@) == state.groups@.contains_key(child@));
        },
        Err(RestoreGroupsError::Nesting(violation)) => {
            groups::verdicts_say_what_is_wrong(prospective, Err(violation), Seq::empty());
            if first {
                assert(sound(state, records, i));
            }
        },
        Err(_) => {},
        Ok(_) => {
            if first {
                assert(sound(state, records, i));
            }
        },
    }
}

proof fn only_one_first(state: AppState, records: Seq<(Seq<char>, groups::GroupView)>, i: int, k: int)
    ensures
        first_unsound(state, records, k) && first_unsound(state, records, i) ==> i == k,
        first_unanchored(state, records, k) && first_unanchored(state, records, i) ==> i == k,
        first_unsound(state, records, k) ==> !sound(state, records, k),
        first_unanchored(state, records, k) ==> !anchored(state, records, k),
{
    if first_unsound(state, records, k) && first_unsound(state, records, i) {
        if i < k {
            assert(sound(state, records, i));
        } else if k < i {
            assert(sound(state, records, k));
        }
    }
    if first_unanchored(state, records, k) && first_unanchored(state, records, i) {
        if i < k {
            assert(anchored(state, records, i));
        } else if k < i {
            assert(anchored(state, records, k));
        }
    }
}

proof fn overlaid_finite(m: Map<Seq<char>, groups::GroupView>, records: Seq<(Seq<char>, groups::GroupView)>)
    requires
        m.dom().finite(),
    ensures
        overlaid(m, records).dom().finite(),
    decreases records.len(),
{
    if records.len() > 0 {
        overlaid_finite(m, records.drop_last());
        assert(overlaid(m, records).dom() =~= overlaid(m, records.drop_last()).dom().insert(records.last().0));
    }
}

} // verus!
