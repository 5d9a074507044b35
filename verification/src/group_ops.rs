//! Group operations: the strict gates in front of every group write, the
//! in-memory change, and what the caller has to persist.
use crate::groups;
use crate::groups::{
    add_all, context_closure, first_missing, remove_all, validate_nesting, GroupRecord, NestingViolation,
};
use crate::names;
use crate::names::NameSet;
use crate::state::{AppState, IoFault};
use crate::text::same;
use vstd::prelude::*;

verus! {

pub enum CreateGroupError {
    InvalidName,
    AlreadyExists,
    /// Which set is over the cap.
    OverCap(&'static str),
    NoSuchContext(String),
    NoSuchGroup(String),
    Nesting(NestingViolation),
    Io(IoFault),
}

pub enum UpdateGroupError {
    NotFound,
    OverCap(&'static str),
    NoSuchContext(String),
    NoSuchGroup(String),
    Nesting(NestingViolation),
    Io(IoFault),
}

/// A group that was admitted and waits for its stale markers to go.
pub struct GroupDraft {
    pub name: String,
    pub record: GroupRecord,
}

/// Every group's name with what its record says.
pub open spec fn groups_of(state: AppState) -> Map<Seq<char>, groups::GroupView> {
    groups::group_map(state.groups)
}

/// The set that is over the cap, contexts first.
pub open spec fn over_cap(cap: usize, contexts: Set<Seq<char>>, children: Set<Seq<char>>) -> Option<Seq<char>> {
    if contexts.len() > cap {
        Some("member contexts"@)
    } else if children.len() > cap {
        Some("child groups"@)
    } else {
        None
    }
}

/// The per-set membership cap: the first over-cap set's label.
pub fn check_member_caps(cap: usize, contexts: &NameSet, children: &NameSet) -> (res: Result<(), &'static str>)
    requires
        contexts.wf(),
        children.wf(),
    ensures
        match res {
            Ok(_) => over_cap(cap, contexts@, children@) is None,
            Err(field) => over_cap(cap, contexts@, children@) == Some(field@),
        },
{
    if contexts.len() > cap {
        return Err("member contexts");
    }
    if children.len() > cap {
        return Err("child groups");
    }
    Ok(())
}

/// What a group may say, given the contexts and groups there are.
pub open spec fn record_fits(state: AppState, record: groups::GroupView) -> bool {
    &&& record.contexts.subset_of(state.registry@.dom())
    &&& record.groups.subset_of(state.groups@.dom())
    &&& over_cap(state.options.max_group_members, record.contexts, record.groups) is None
}

/// What [`AppState::create_group`] answers.
pub open spec fn create_gate(
    state: AppState,
    name: Seq<char>,
    record: groups::GroupView,
    res: Result<GroupDraft, CreateGroupError>,
) -> bool {
    if name.len() == 0 {
        res is Err && res->Err_0 is InvalidName
    } else if state.groups@.contains_key(name) {
        res is Err && res->Err_0 is AlreadyExists
    } else if let Some(field) = over_cap(state.options.max_group_members, record.contexts, record.groups) {
        res matches Err(CreateGroupError::OverCap(f)) && f@ == field
    } else if !record.contexts.subset_of(state.registry@.dom()) {
        res matches Err(CreateGroupError::NoSuchContext(m)) && groups::first_missing_is(
            record.contexts,
            state.registry@.dom(),
            m@,
        )
    } else if !record.groups.subset_of(state.groups@.dom()) {
        res matches Err(CreateGroupError::NoSuchGroup(m)) && groups::first_missing_is(
            record.groups,
            state.groups@.dom(),
            m@,
        )
    } else {
        res matches Ok(draft) && draft.name@ == name && draft.record@ == record && draft.record.wf()
    }
}

/// What a membership set holds after a delta: removals first, then adds.
pub open spec fn after_delta(held: Set<Seq<char>>, add: Set<Seq<char>>, remove: Set<Seq<char>>) -> Set<Seq<char>> {
    held.difference(remove).union(add)
}

/// What a group says after a delta.
pub open spec fn updated_record(
    was: groups::GroupView,
    description: Option<String>,
    add_contexts: Set<Seq<char>>,
    remove_contexts: Set<Seq<char>>,
    add_groups: Set<Seq<char>>,
    remove_groups: Set<Seq<char>>,
) -> groups::GroupView {
    groups::GroupView {
        description: match description {
            Some(d) => d@,
            None => was.description,
        },
        contexts: after_delta(was.contexts, add_contexts, remove_contexts),
        groups: after_delta(was.groups, add_groups, remove_groups),
    }
}

/// A delta that says something takes its set over the cap.
pub open spec fn delta_over(cap: usize, held: Set<Seq<char>>, add: Set<Seq<char>>, remove: Set<Seq<char>>) -> bool {
    !(add == Set::<Seq<char>>::empty() && remove == Set::<Seq<char>>::empty()) && after_delta(held, add, remove).len() > cap
}

/// A membership set after a delta.
fn apply_delta(held: &NameSet, add: &NameSet, remove: &NameSet) -> (res: NameSet)
    requires
        held.wf(),
        add.wf(),
        remove.wf(),
    ensures
        res.wf(),
        res@ == after_delta(held@, add@, remove@),
{
    let mut res = held.copy();
    remove_all(&mut res, remove);
    add_all(&mut res, add);
    res
}

fn delta_is_over(cap: usize, held: &NameSet, add: &NameSet, remove: &NameSet) -> (res: bool)
    requires
        held.wf(),
        add.wf(),
        remove.wf(),
    ensures
        res == delta_over(cap, held@, add@, remove@),
{
    if add.is_empty() && remove.is_empty() {
        return false;
    }
    let next = apply_delta(held, add, remove);
    next.len() > cap
}

impl AppState {
    /// What every group operation keeps: the nesting fits, both sets of each
    /// group stay under the cap, every child is a group, and every member is
    /// a context, or one that is just being deleted or renamed.
    pub open spec fn groups_ok(&self) -> bool {
        &&& groups::nesting_fits(groups_of(*self))
        &&& forall|g: Seq<char>| #[trigger] groups_of(*self).contains_key(g) ==> self.group_ok(groups_of(*self)[g])
    }

    pub open spec fn group_ok(&self, record: groups::GroupView) -> bool {
        &&& record.contexts.len() <= self.options.max_group_members
        &&& record.groups.len() <= self.options.max_group_members
        &&& record.groups.subset_of(self.groups@.dom())
        &&& record.contexts.subset_of(
            self.registry@.dom().union(self.pending.deletes@).union(self.pending.renames@),
        )
    }

    /// Judges a new group: a name that is free, both sets under the cap,
    /// every member a context and every child a group. What passes is a
    /// draft; once its stale rename markers are gone it goes to
    /// [`AppState::admit_group`].
    pub fn create_group(
        &self,
        name: &str,
        description: String,
        contexts: NameSet,
        children: NameSet,
    ) -> (res: Result<GroupDraft, CreateGroupError>)
        requires
            self.wf(),
            contexts.wf(),
            children.wf(),
        ensures
            create_gate(
                *self,
                name@,
                (groups::GroupView { description: description@, contexts: contexts@, groups: children@ }),
                res,
            ),
            res matches Ok(draft) ==> record_fits(*self, draft.record@),
    {
        if name.is_empty() {
            return Err(CreateGroupError::InvalidName);
        }
        if self.groups.contains(name) {
            return Err(CreateGroupError::AlreadyExists);
        }
        match check_member_caps(self.options.max_group_members, &contexts, &children) {
            Ok(_) => {},
            Err(field) => {
                return Err(CreateGroupError::OverCap(field));
            },
        }
        if let Some(missing) = first_missing(&contexts, &self.registry) {
            return Err(CreateGroupError::NoSuchContext(missing));
        }
        if let Some(missing) = first_missing(&children, &self.groups) {
            return Err(CreateGroupError::NoSuchGroup(missing));
        }
        let record = GroupRecord { description, contexts, groups: children };
        Ok(GroupDraft { name: name.to_owned(), record })
    }

    /// Takes a draft in, once its stale markers are gone, if the nesting that
    /// results fits. The caller then persists the record and reports to
    /// [`AppState::settle_created_group`].
    pub fn admit_group(&mut self, draft: GroupDraft, cleared: Result<(), IoFault>) -> (res: Result<(), CreateGroupError>)
        requires
            old(self).wf(),
            draft.record.wf(),
        ensures
            final(self).wf(),
            old(self).nonces_kept(*final(self)),
            *final(self) == (AppState { groups: final(self).groups, ..*old(self) }),
            ({
                let tried = groups_of(*old(self)).insert(draft.name@, draft.record@);
                if let Err(fault) = cleared {
                    res == Err::<(), _>(CreateGroupError::Io(fault)) && final(self).groups@ == old(self).groups@
                } else if old(self).groups@.contains_key(draft.name@) {
                    res == Err::<(), _>(CreateGroupError::AlreadyExists) && final(self).groups@ == old(self).groups@
                } else if groups::nesting_fits(tried) {
                    res is Ok && final(self).groups@ == old(self).groups@.insert(draft.name@, draft.record)
                } else {
                    &&& res matches Err(CreateGroupError::Nesting(v))
                    &&& groups::nesting_verdict(tried, Err(v))
                    &&& final(self).groups@ == old(self).groups@
                }
            }),
            old(self).groups_ok() && record_fits(*old(self), draft.record@) ==> final(self).groups_ok(),
    {
        if let Err(fault) = cleared {
            return Err(CreateGroupError::Io(fault));
        }
        if self.groups.contains(draft.name.as_str()) {
            return Err(CreateGroupError::AlreadyExists);
        }
        let ghost tried = groups_of(*self).insert(draft.name@, draft.record@);
        let name = draft.name.clone();
        self.groups.insert(draft.name, draft.record);
        assert(groups_of(*self) =~= tried);
        match validate_nesting(&self.groups) {
            Ok(_) => {
                proof {
                    assert forall|g: Seq<char>| #[trigger] groups_of(*self).contains_key(g) && old(self).groups_ok() && record_fits(
                        *old(self),
                        draft.record@,
                    ) implies self.group_ok(groups_of(*self)[g]) by {
                        if g != name@ {
                            assert(groups_of(*old(self)).contains_key(g));
                            assert(old(self).group_ok(groups_of(*old(self))[g]));
                        }
                    }
                }
                Ok(())
            },
            Err(violation) => {
                self.groups.remove(name.as_str());
                proof {
                    assert(self.groups@ =~= old(self).groups@);
                    same_groups_ok(*old(self), *self);
                }
                Err(CreateGroupError::Nesting(violation))
            },
        }
    }

    /// Ends a group's creation: a record that could not be persisted leaves
    /// memory again.
    pub fn settle_created_group(&mut self, name: &str, written: Result<(), IoFault>) -> (res: Result<(), CreateGroupError>)
        requires
            old(self).wf(),
        ensures
            final(self).wf(),
            old(self).nonces_kept(*final(self)),
            *final(self) == (AppState { groups: final(self).groups, ..*old(self) }),
            match written {
                Ok(_) => res is Ok && final(self).groups@ == old(self).groups@,
                Err(fault) => res == Err::<(), _>(CreateGroupError::Io(fault)) && final(self).groups@
                    == old(self).groups@.remove(name@),
            },
            old(self).groups_ok() && !named_as_child(*old(self), name@) ==> final(self).groups_ok(),
    {
        match written {
            Ok(_) => Ok(()),
            Err(fault) => {
                self.groups.remove(name);
                proof {
                    let was = groups_of(*old(self));
                    let now = groups_of(*self);
                    assert(now =~= was.remove(name@));
                    if old(self).groups_ok() && !named_as_child(*old(self), name@) {
                        groups::smaller_nesting_fits(now, was);
                        assert forall|g: Seq<char>| #[trigger] now.contains_key(g) implies self.group_ok(now[g]) by {
                            assert(was.contains_key(g));
                            assert(old(self).group_ok(was[g]));
                            assert forall|c: Seq<char>| now[g].groups.contains(c) implies self.groups@.dom().contains(c) by {
                                assert(was[g].groups.contains(c));
                            }
                        }
                    }
                }
                Err(CreateGroupError::Io(fault))
            },
        }
    }

    /// Applies a delta to one group: removals first, then additions, then the
    /// description. Nothing applies unless everything does. The caller
    /// persists the record and reports to [`AppState::settle_updated_group`]
    /// with the previous record, which this returns.
    pub fn update_group(
        &mut self,
        name: &str,
        description: Option<String>,
        add_contexts: &NameSet,
        remove_contexts: &NameSet,
        add_groups: &NameSet,
        remove_groups: &NameSet,
    ) -> (res: Result<GroupRecord, UpdateGroupError>)
        requires
            old(self).wf(),
            add_contexts.wf(),
            remove_contexts.wf(),
            add_groups.wf(),
            remove_groups.wf(),
        ensures
            final(self).wf(),
            old(self).nonces_kept(*final(self)),
            *final(self) == (AppState { groups: final(self).groups, ..*old(self) }),
            res is Err ==> final(self).groups@ == old(self).groups@,
            update_gate(
                *old(self),
                *final(self),
                name@,
                description,
                add_contexts@,
                remove_contexts@,
                add_groups@,
                remove_groups@,
                res,
            ),
            old(self).groups_ok() ==> final(self).groups_ok(),
    {
        let cap: usize = self.options.max_group_members;
        let ghost was = groups_of(*self);
        let next = match self.groups.get(name) {
            None => {
                return Err(UpdateGroupError::NotFound);
            },
            Some(record) => {
                if delta_is_over(cap, &record.contexts, add_contexts, remove_contexts) {
                    return Err(UpdateGroupError::OverCap("member contexts"));
                }
                if delta_is_over(cap, &record.groups, add_groups, remove_groups) {
                    return Err(UpdateGroupError::OverCap("child groups"));
                }
                if let Some(missing) = first_missing(add_contexts, &self.registry) {
                    return Err(UpdateGroupError::NoSuchContext(missing));
                }
                if let Some(missing) = first_missing(add_groups, &self.groups) {
                    return Err(UpdateGroupError::NoSuchGroup(missing));
                }
                let text = match description {
                    Some(d) => d,
                    None => record.description.clone(),
                };
                GroupRecord {
                    description: text,
                    contexts: apply_delta(&record.contexts, add_contexts, remove_contexts),
                    groups: apply_delta(&record.groups, add_groups, remove_groups),
                }
            },
        };
        let ghost said = next@;
        let previous = match self.groups.insert(name.to_owned(), next) {
            Some(previous) => previous,
            None => {
                return Err(UpdateGroupError::NotFound);
            },
        };
        let ghost tried = was.insert(name@, said);
        assert(groups_of(*self) =~= tried);
        match validate_nesting(&self.groups) {
            Ok(_) => {
                proof {
                    if old(self).groups_ok() {
                        assert(groups_of(*self).dom() =~= groups_of(*old(self)).dom());
                        delta_keeps_ok(*old(self), *self, name@, add_contexts@, remove_contexts@, add_groups@, remove_groups@);
                    }
                }
                Ok(previous)
            },
            Err(violation) => {
                self.groups.insert(name.to_owned(), previous);
                proof {
                    assert(self.groups@ =~= old(self).groups@);
                    same_groups_ok(*old(self), *self);
                }
                Err(UpdateGroupError::Nesting(violation))
            },
        }
    }

    /// Ends a group's update: a record that could not be persisted gives way
    /// to the previous one.
    pub fn settle_updated_group(
        &mut self,
        name: &str,
        previous: GroupRecord,
        written: Result<(), IoFault>,
    ) -> (res: Result<GroupRecord, UpdateGroupError>)
        requires
            old(self).wf(),
            previous.wf(),
        ensures
            final(self).wf(),
            old(self).nonces_kept(*final(self)),
            *final(self) == (AppState { groups: final(self).groups, ..*old(self) }),
            if !old(self).groups@.contains_key(name@) {
                res == Err::<GroupRecord, _>(UpdateGroupError::NotFound) && final(self).groups@ == old(self).groups@
            } else {
                match written {
                    Ok(_) => {
                        &&& res matches Ok(record)
                        &&& record@ == old(self).groups@[name@]@
                        &&& final(self).groups@ == old(self).groups@
                    },
                    Err(fault) => {
                        &&& res == Err::<GroupRecord, _>(UpdateGroupError::Io(fault))
                        &&& final(self).groups@ == old(self).groups@.insert(name@, previous)
                    },
                }
            },
    {
        match written {
            Ok(_) => match self.groups.get(name) {
                Some(record) => Ok(record.copy()),
                None => Err(UpdateGroupError::NotFound),
            },
            Err(fault) => {
                if !self.groups.contains(name) {
                    return Err(UpdateGroupError::NotFound);
                }
                self.groups.insert(name.to_owned(), previous);
                Err(UpdateGroupError::Io(fault))
            },
        }
    }
}

pub enum RenameGroupError {
    InvalidName,
    NotFound,
    AlreadyExists,
    Io(IoFault),
}

/// What a rename of a group has to do.
#[derive(Clone, Copy, PartialEq, Eq, Structural, Debug)]
pub enum GroupRename {
    /// The names are the same: nothing.
    Nothing,
    /// Write the marker, move the file, then report to
    /// [`AppState::settle_renamed_group`].
    Move,
}

/// Where the names after a cursor start in an ascending sequence.
pub open spec fn page_start(order: Seq<Seq<char>>, after: Option<Seq<char>>, start: int) -> bool {
    &&& 0 <= start <= order.len()
    &&& match after {
        None => start == 0,
        Some(cursor) => {
            &&& forall|i: int| 0 <= i < start ==> !names::before(cursor, #[trigger] order[i])
            &&& forall|i: int| start <= i < order.len() ==> names::before(cursor, #[trigger] order[i])
        },
    }
}

/// Every group with the name of a deleted child swept out.
pub open spec fn group_removed(m: Map<Seq<char>, groups::GroupView>, name: Seq<char>) -> Map<Seq<char>, groups::GroupView> {
    groups::all_rewritten(m.remove(name), name, None, true)
}

impl AppState {
    /// Removes a group, the bundling only, and sweeps its name out of every
    /// parent. `None` for an unknown name. The parents it touched, ascending,
    /// are to be persisted, and the group's own file to be removed.
    pub fn delete_group(&mut self, name: &str) -> (res: Option<Vec<String>>)
        requires
            old(self).wf(),
        ensures
            final(self).wf(),
            old(self).nonces_kept(*final(self)),
            *final(self) == (AppState { groups: final(self).groups, ..*old(self) }),
            match res {
                None => !old(self).groups@.contains_key(name@) && final(self).groups@ == old(self).groups@,
                Some(touched) => {
                    &&& old(self).groups@.contains_key(name@)
                    &&& groups_of(*final(self)) == group_removed(groups_of(*old(self)), name@)
                    &&& names::ascending(names::views(touched@))
                    &&& forall|g: Seq<char>| #[trigger]
                        names::views(touched@).contains(g) <==> g != name@ && groups_of(*old(self)).contains_key(g)
                            && groups_of(*old(self))[g].groups.contains(name@)
                },
            },
            old(self).groups_ok() ==> final(self).groups_ok(),
    {
        let ghost m = groups_of(*self);
        match self.groups.remove(name) {
            None => {
                assert(self.groups@ =~= old(self).groups@);
                proof {
                    same_groups_ok(*old(self), *self);
                }
                None
            },
            Some(_) => {
                assert(groups_of(*self) =~= m.remove(name@));
                let touched = groups::rewrite_membership(&mut self.groups, name, None, true);
                proof {
                    let now = groups_of(*self);
                    assert(now == group_removed(m, name@));
                    if old(self).groups_ok() {
                        groups::smaller_nesting_fits(now, m);
                        assert forall|g: Seq<char>| #[trigger] now.contains_key(g) implies self.group_ok(now[g]) by {
                            assert(m.contains_key(g));
                            assert(old(self).group_ok(m[g]));
                            old(self).groups@[g].groups.order_is_members();
                            groups::replaced_is_no_larger(m[g].groups, name@, None);
                            assert forall|c: Seq<char>| now[g].groups.contains(c) implies self.groups@.dom().contains(c) by {
                                assert(m[g].groups.contains(c));
                                assert(m.contains_key(c));
                            }
                        }
                    }
                }
                Some(touched)
            },
        }
    }

    /// Judges the rename of a group. An empty new name is refused before
    /// anything else; a group renamed to its own name is left alone.
    pub fn rename_group(&self, from: &str, to: &str) -> (res: Result<GroupRename, RenameGroupError>)
        requires
            self.wf(),
        ensures
            if to@.len() == 0 {
                res is Err && res->Err_0 is InvalidName
            } else if from@ == to@ {
                res == Ok::<_, RenameGroupError>(GroupRename::Nothing)
            } else if !self.groups@.contains_key(from@) {
                res is Err && res->Err_0 is NotFound
            } else if self.groups@.contains_key(to@) {
                res is Err && res->Err_0 is AlreadyExists
            } else {
                res == Ok::<_, RenameGroupError>(GroupRename::Move)
            },
    {
        if to.is_empty() {
            return Err(RenameGroupError::InvalidName);
        }
        if same(from, to) {
            return Ok(GroupRename::Nothing);
        }
        if !self.groups.contains(from) {
            return Err(RenameGroupError::NotFound);
        }
        if self.groups.contains(to) {
            return Err(RenameGroupError::AlreadyExists);
        }
        Ok(GroupRename::Move)
    }

    /// Ends a group's rename, once its marker was written and its file moved:
    /// the record moves to the new name and every parent follows. The parents
    /// it touched, ascending, are to be persisted. A marker or a move that
    /// failed leaves memory as it was.
    pub fn settle_renamed_group(&mut self, from: &str, to: &str, moved: Result<(), IoFault>) -> (res: Result<
        Vec<String>,
        RenameGroupError,
    >)
        requires
            old(self).wf(),
        ensures
            final(self).wf(),
            old(self).nonces_kept(*final(self)),
            *final(self) == (AppState { groups: final(self).groups, ..*old(self) }),
            if let Err(fault) = moved {
                res == Err::<Vec<String>, _>(RenameGroupError::Io(fault)) && final(self).groups@ == old(self).groups@
            } else if !old(self).groups@.contains_key(from@) {
                res is Err && res->Err_0 is NotFound && final(self).groups@ == old(self).groups@
            } else if old(self).groups@.contains_key(to@) {
                res is Err && res->Err_0 is AlreadyExists && final(self).groups@ == old(self).groups@
            } else {
                &&& res matches Ok(touched)
                &&& groups_of(*final(self)) == groups::renamed_group(groups_of(*old(self)), from@, to@)
                &&& names::ascending(names::views(touched@))
                &&& forall|g: Seq<char>| #[trigger]
                    names::views(touched@).contains(g) <==> groups_of(*final(self)).contains_key(g) && groups_of(
                        *old(self),
                    )[groups::name_before(g, from@, to@)].groups.contains(from@)
            },
            old(self).groups_ok() ==> final(self).groups_ok(),
    {
        if let Err(fault) = moved {
            return Err(RenameGroupError::Io(fault));
        }
        if !self.groups.contains(from) {
            return Err(RenameGroupError::NotFound);
        }
        if self.groups.contains(to) {
            return Err(RenameGroupError::AlreadyExists);
        }
        let ghost m = groups_of(*self);
        let record = match self.groups.remove(from) {
            Some(record) => record,
            None => {
                return Err(RenameGroupError::NotFound);
            },
        };
        self.groups.insert(to.to_owned(), record);
        assert(groups_of(*self) =~= m.remove(from@).insert(to@, m[from@]));
        let touched = groups::rewrite_membership(&mut self.groups, from, Some(to), true);
        proof {
            let now = groups_of(*self);
            if old(self).groups_ok() {
                assert forall|g: Seq<char>| m.contains_key(g) implies !#[trigger] m[g].groups.contains(to@) by {
                    assert(old(self).group_ok(m[g]));
                }
                groups::renamed_nesting_fits(m, from@, to@);
                assert forall|g: Seq<char>| #[trigger] now.contains_key(g) implies self.group_ok(now[g]) by {
                    let b = groups::name_before(g, from@, to@);
                    assert(m.contains_key(b));
                    assert(old(self).group_ok(m[b]));
                    old(self).groups@[b].groups.order_is_members();
                    groups::replaced_is_no_larger(m[b].groups, from@, Some(to@));
                    assert(now[g].groups == groups::replaced_in(m[b].groups, from@, Some(to@)));
                    assert forall|c: Seq<char>| now[g].groups.contains(c) implies self.groups@.dom().contains(c) by {
                        if c != to@ {
                            assert(m[b].groups.contains(c));
                            assert(m.contains_key(c));
                        }
                    }
                }
            }
        }
        Ok(touched)
    }

    /// One group's record, or `None` for an unknown group.
    pub fn group(&self, name: &str) -> (res: Option<GroupRecord>)
        requires
            self.wf(),
        ensures
            match res {
                Some(record) => self.groups@.contains_key(name@) && record@ == self.groups@[name@]@ && record.wf(),
                None => !self.groups@.contains_key(name@),
            },
    {
        match self.groups.get(name) {
            Some(record) => Some(record.copy()),
            None => None,
        }
    }

    /// Every context that the named groups address: their members and those
    /// of everything nested below them. Unknown names add nothing.
    pub fn group_context_closures(&self, names: &Vec<String>) -> (res: NameSet)
        requires
            self.wf(),
        ensures
            res.wf(),
            res@ == groups::addressed(groups_of(*self), names::views(names@).to_set()),
    {
        context_closure(&self.groups, names)
    }

    /// [`AppState::group_context_closures`], except that the first name that
    /// is no group comes back as the error.
    pub fn resolve_groups(&self, names: &Vec<String>) -> (res: Result<NameSet, String>)
        requires
            self.wf(),
        ensures
            match res {
                Ok(contexts) => {
                    &&& contexts.wf()
                    &&& forall|i: int| 0 <= i < names.len() ==> self.groups@.contains_key((#[trigger] names@[i])@)
                    &&& contexts@ == groups::addressed(groups_of(*self), names::views(names@).to_set())
                },
                Err(missing) => exists|i: int|
                    0 <= i < names.len() && (#[trigger] names@[i]) == missing && !self.groups@.contains_key(missing@)
                        && forall|j: int| 0 <= j < i ==> self.groups@.contains_key((#[trigger] names@[j])@),
            },
    {
        let mut i: usize = 0;
        while i < names.len()
            invariant
                self.wf(),
                i <= names.len(),
                forall|j: int| 0 <= j < i ==> self.groups@.contains_key((#[trigger] names@[j])@),
            decreases names.len() - i,
        {
            if !self.groups.contains(names[i].as_str()) {
                return Err(names[i].clone());
            }
            i = i + 1;
        }
        Ok(context_closure(&self.groups, names))
    }

    /// One page of groups in name order, those after the cursor, with how
    /// many groups there are in all.
    pub fn group_page(&self, after: Option<&str>, limit: usize) -> (res: (usize, Vec<(String, GroupRecord)>))
        requires
            self.wf(),
        ensures
            res.0 == self.groups@.dom().len(),
            exists|start: int|
                #![trigger page_start(names::in_order(self.groups@.dom()), names::opt_view(after), start)]
                {
                    let order = names::in_order(self.groups@.dom());
                    &&& page_start(order, names::opt_view(after), start)
                    &&& res.1.len() == if order.len() - start <= limit {
                        order.len() - start
                    } else {
                        limit as int
                    }
                    &&& forall|i: int|
                        0 <= i < res.1.len() ==> (#[trigger] res.1@[i]).0@ == order[start + i] && res.1@[i].1@
                            == self.groups@[order[start + i]]@
                },
    {
        let n: usize = self.groups.len();
        let ghost order = self.groups.order();
        proof {
            self.groups.order_is_domain();
        }
        let ghost cursor = names::opt_view(after);
        let mut start: usize = 0;
        if let Some(a) = after {
            while start < n && !names::is_before(a, self.groups.key_at(start).as_str())
                invariant
                    self.wf(),
                    n == self.groups.order().len(),
                    start <= n,
                    forall|i: int| 0 <= i < start ==> !names::before(a@, #[trigger] self.groups.order()[i]),
                decreases n - start,
            {
                start = start + 1;
            }
            proof {
                assert forall|i: int| start <= i < order.len() implies names::before(a@, #[trigger] order[i]) by {
                    if i > start {
                        names::before_transitive(a@, order[start as int], order[i]);
                    }
                }
            }
        }
        assert(page_start(order, cursor, start as int));
        let mut page: Vec<(String, GroupRecord)> = Vec::new();
        let mut i: usize = start;
        while i < n && page.len() < limit
            invariant
                self.wf(),
                n == self.groups.order().len(),
                order == self.groups.order(),
                start <= i <= n,
                page.len() == i - start,
                page.len() <= limit,
                forall|k: int|
                    0 <= k < page.len() ==> (#[trigger] page@[k]).0@ == order[start + k] && page@[k].1@ == self.groups@[order[start
                        + k]]@,
            decreases n - i,
        {
            let name = self.groups.key_at(i).clone();
            let record = self.groups.value_at(i).copy();
            page.push((name, record));
            i = i + 1;
        }
        (n, page)
    }

    /// Drops a deleted context out of every group. The groups it touched,
    /// ascending, are to be persisted.
    pub fn sweep_context_from_groups(&mut self, context_name: &str) -> (touched: Vec<String>)
        requires
            old(self).wf(),
        ensures
            final(self).wf(),
            old(self).nonces_kept(*final(self)),
            *final(self) == (AppState { groups: final(self).groups, ..*old(self) }),
            groups_of(*final(self)) == groups::all_rewritten(groups_of(*old(self)), context_name@, None, false),
            names::ascending(names::views(touched@)),
            forall|g: Seq<char>| #[trigger]
                names::views(touched@).contains(g) <==> groups_of(*old(self)).contains_key(g) && groups_of(
                    *old(self),
                )[g].contexts.contains(context_name@),
            old(self).groups_ok() ==> final(self).groups_ok(),
            forall|g: Seq<char>| #[trigger] groups_of(*final(self)).contains_key(g) ==> !groups_of(
                *final(self),
            )[g].contexts.contains(context_name@),
    {
        let touched = groups::rewrite_membership(&mut self.groups, context_name, None, false);
        proof {
            let m = groups_of(*old(self));
            let now = groups_of(*self);
            if old(self).groups_ok() {
                groups::smaller_nesting_fits(now, m);
                assert forall|g: Seq<char>| #[trigger] now.contains_key(g) implies self.group_ok(now[g]) by {
                    assert(m.contains_key(g));
                    assert(old(self).group_ok(m[g]));
                    old(self).groups@[g].contexts.order_is_members();
                    groups::replaced_is_no_larger(m[g].contexts, context_name@, None);
                }
            }
        }
        touched
    }

    /// Renames a context in every group that has it. The groups it touched,
    /// ascending, are to be persisted.
    pub fn rename_in_membership(&mut self, from: &str, to: &str) -> (touched: Vec<String>)
        requires
            old(self).wf(),
        ensures
            final(self).wf(),
            old(self).nonces_kept(*final(self)),
            *final(self) == (AppState { groups: final(self).groups, ..*old(self) }),
            groups_of(*final(self)) == groups::all_rewritten(groups_of(*old(self)), from@, Some(to@), false),
            names::ascending(names::views(touched@)),
            forall|g: Seq<char>| #[trigger]
                names::views(touched@).contains(g) <==> groups_of(*old(self)).contains_key(g) && groups_of(
                    *old(self),
                )[g].contexts.contains(from@),
            old(self).groups_ok() && old(self).registry@.contains_key(to@) ==> final(self).groups_ok(),
    {
        let touched = groups::rewrite_membership(&mut self.groups, from, Some(to), false);
        proof {
            let m = groups_of(*old(self));
            let now = groups_of(*self);
            if old(self).groups_ok() && old(self).registry@.contains_key(to@) {
                groups::smaller_nesting_fits(now, m);
                assert forall|g: Seq<char>| #[trigger] now.contains_key(g) implies self.group_ok(now[g]) by {
                    assert(m.contains_key(g));
                    assert(old(self).group_ok(m[g]));
                    old(self).groups@[g].contexts.order_is_members();
                    groups::replaced_is_no_larger(m[g].contexts, from@, Some(to@));
                }
            }
        }
        touched
    }
}

/// Some group has `name` among its members.
pub open spec fn has_member(state: AppState, name: Seq<char>) -> bool {
    exists|g: Seq<char>| groups_of(state).contains_key(g) && #[trigger] groups_of(state)[g].contexts.contains(name)
}

/// Some group has `name` among its children.
pub open spec fn named_as_child(state: AppState, name: Seq<char>) -> bool {
    exists|g: Seq<char>| groups_of(state).contains_key(g) && #[trigger] groups_of(state)[g].groups.contains(name)
}

/// What [`AppState::update_group`] answers, and what it leaves where it
/// answers `Ok`.
pub open spec fn update_gate(
    state: AppState,
    after: AppState,
    name: Seq<char>,
    description: Option<String>,
    add_contexts: Set<Seq<char>>,
    remove_contexts: Set<Seq<char>>,
    add_groups: Set<Seq<char>>,
    remove_groups: Set<Seq<char>>,
    res: Result<GroupRecord, UpdateGroupError>,
) -> bool {
    let cap = state.options.max_group_members;
    let m = groups_of(state);
    if !m.contains_key(name) {
        res is Err && res->Err_0 is NotFound
    } else {
        let record = updated_record(m[name], description, add_contexts, remove_contexts, add_groups, remove_groups);
        let tried = m.insert(name, record);
        if delta_over(cap, m[name].contexts, add_contexts, remove_contexts) {
            res matches Err(UpdateGroupError::OverCap(f)) && f@ == "member contexts"@
        } else if delta_over(cap, m[name].groups, add_groups, remove_groups) {
            res matches Err(UpdateGroupError::OverCap(f)) && f@ == "child groups"@
        } else if !add_contexts.subset_of(state.registry@.dom()) {
            res matches Err(UpdateGroupError::NoSuchContext(x)) && groups::first_missing_is(
                add_contexts,
                state.registry@.dom(),
                x@,
            )
        } else if !add_groups.subset_of(state.groups@.dom()) {
            res matches Err(UpdateGroupError::NoSuchGroup(x)) && groups::first_missing_is(
                add_groups,
                state.groups@.dom(),
                x@,
            )
        } else if groups::nesting_fits(tried) {
            res matches Ok(previous) && previous == state.groups@[name] && groups_of(after) == tried
        } else {
            res matches Err(UpdateGroupError::Nesting(v)) && groups::nesting_verdict(tried, Err(v))
        }
    }
}

/// The invariant looks at the groups' records alone.
proof fn same_groups_ok(a: AppState, b: AppState)
    requires
        a.groups@ == b.groups@,
        b == (AppState { groups: b.groups, ..a }),
    ensures
        a.groups_ok() ==> b.groups_ok(),
{
    assert(groups_of(a) =~= groups_of(b));
    if a.groups_ok() {
        assert forall|g: Seq<char>| #[trigger] groups_of(b).contains_key(g) implies b.group_ok(groups_of(b)[g]) by {
            assert(groups_of(a).contains_key(g));
            assert(a.group_ok(groups_of(a)[g]));
        }
    }
}

proof fn delta_keeps_ok(
    a: AppState,
    b: AppState,
    name: Seq<char>,
    add_contexts: Set<Seq<char>>,
    remove_contexts: Set<Seq<char>>,
    add_groups: Set<Seq<char>>,
    remove_groups: Set<Seq<char>>,
)
    requires
        a.wf(),
        a.groups_ok(),
        b == (AppState { groups: b.groups, ..a }),
        groups_of(a).contains_key(name),
        groups_of(b).dom() == groups_of(a).dom(),
        groups::nesting_fits(groups_of(b)),
        forall|g: Seq<char>| groups_of(a).contains_key(g) && g != name ==> #[trigger] groups_of(b)[g] == groups_of(a)[g],
        groups_of(b)[name].contexts == after_delta(groups_of(a)[name].contexts, add_contexts, remove_contexts),
        groups_of(b)[name].groups == after_delta(groups_of(a)[name].groups, add_groups, remove_groups),
        !delta_over(a.options.max_group_members, groups_of(a)[name].contexts, add_contexts, remove_contexts),
        !delta_over(a.options.max_group_members, groups_of(a)[name].groups, add_groups, remove_groups),
        add_contexts.subset_of(a.registry@.dom()),
        add_groups.subset_of(a.groups@.dom()),
    ensures
        b.groups_ok(),
{
    assert(groups_of(a).dom() =~= a.groups@.dom());
    assert(groups_of(b).dom() =~= b.groups@.dom());
    assert forall|g: Seq<char>| #[trigger] groups_of(b).contains_key(g) implies b.group_ok(groups_of(b)[g]) by {
        assert(groups_of(a).contains_key(g));
        assert(a.group_ok(groups_of(a)[g]));
        if g == name {
            let wc = groups_of(a)[name].contexts;
            let wg = groups_of(a)[name].groups;
            if add_contexts == Set::<Seq<char>>::empty() && remove_contexts == Set::<Seq<char>>::empty() {
                assert(after_delta(wc, add_contexts, remove_contexts) =~= wc);
            }
            if add_groups == Set::<Seq<char>>::empty() && remove_groups == Set::<Seq<char>>::empty() {
                assert(after_delta(wg, add_groups, remove_groups) =~= wg);
            }
        }
    }
}

/// An update that could not be persisted leaves the groups as they were.
pub proof fn failed_group_update_changes_nothing(
    was: AppState,
    tried: AppState,
    after: AppState,
    name: Seq<char>,
    description: Option<String>,
    add_contexts: Set<Seq<char>>,
    remove_contexts: Set<Seq<char>>,
    add_groups: Set<Seq<char>>,
    remove_groups: Set<Seq<char>>,
    previous: GroupRecord,
)
    requires
        update_gate(
            was,
            tried,
            name,
            description,
            add_contexts,
            remove_contexts,
            add_groups,
            remove_groups,
            Ok(previous),
        ),
        tried == (AppState { groups: tried.groups, ..was }),
        after == (AppState { groups: after.groups, ..tried }),
        after.groups@ == tried.groups@.insert(name, previous),
    ensures
        groups_of(after) == groups_of(was),
        was.groups_ok() ==> after.groups_ok(),
{
    assert(groups_of(after) =~= groups_of(tried).insert(name, previous@));
    assert(groups_of(after) =~= groups_of(was));
    assert(after.groups@.dom() =~= groups_of(after).dom());
    assert(was.groups@.dom() =~= groups_of(was).dom());
    if was.groups_ok() {
        assert forall|g: Seq<char>| #[trigger] groups_of(after).contains_key(g) implies after.group_ok(groups_of(after)[g]) by {
            assert(was.group_ok(groups_of(was)[g]));
        }
    }
}

/// A group is over the cap exactly where one of its two sets is, and the
/// members are looked at first.
pub proof fn caps_bound_both_sets(cap: usize, contexts: Set<Seq<char>>, children: Set<Seq<char>>)
    ensures
        over_cap(cap, contexts, children) is None <==> contexts.len() <= cap && children.len() <= cap,
        contexts.len() > cap ==> over_cap(cap, contexts, children) == Some("member contexts"@),
        contexts.len() <= cap && children.len() > cap ==> over_cap(cap, contexts, children) == Some("child groups"@),
{
}

/// A group is made exactly where its name says something and is not taken,
/// both its sets keep to the cap, and all it names is there. What is refused
/// is refused for the first of these that is not so.
pub proof fn groups_are_made_of_what_is_there(
    state: AppState,
    name: Seq<char>,
    record: groups::GroupView,
    res: Result<GroupDraft, CreateGroupError>,
)
    requires
        create_gate(state, name, record, res),
    ensures
        ({
            let cap = state.options.max_group_members;
            let small = record.contexts.len() <= cap && record.groups.len() <= cap;
            let members = forall|c: Seq<char>| #[trigger] record.contexts.contains(c) ==> state.registry@.contains_key(c);
            let children = forall|g: Seq<char>| #[trigger] record.groups.contains(g) ==> state.groups@.contains_key(g);
            &&& res is Ok <==> name.len() > 0 && !state.groups@.contains_key(name) && small && members && children
            &&& (res matches Err(CreateGroupError::InvalidName)) <==> name.len() == 0
            &&& (res matches Err(CreateGroupError::AlreadyExists)) <==> name.len() > 0 && state.groups@.contains_key(name)
            &&& (res matches Err(CreateGroupError::OverCap(_))) <==> name.len() > 0 && !state.groups@.contains_key(name)
                && !small
            &&& (res matches Err(CreateGroupError::NoSuchContext(_))) <==> name.len() > 0 && !state.groups@.contains_key(name)
                && small && !members
            &&& (res matches Err(CreateGroupError::NoSuchGroup(_))) <==> name.len() > 0 && !state.groups@.contains_key(name)
                && small && members && !children
            &&& res matches Ok(draft) ==> draft.name@ == name && draft.record@ == record
        }),
{
    let members = forall|c: Seq<char>| #[trigger] record.contexts.contains(c) ==> state.registry@.contains_key(c);
    let children = forall|g: Seq<char>| #[trigger] record.groups.contains(g) ==> state.groups@.contains_key(g);
    assert(members == record.contexts.subset_of(state.registry@.dom()));
    assert(children == record.groups.subset_of(state.groups@.dom()));
}

/// A delta takes names out and then puts names in: what it adds is there
/// after it, also where it removes it; what it only removes is not; all else
/// stays.
pub proof fn deltas_remove_and_add(held: Set<Seq<char>>, add: Set<Seq<char>>, remove: Set<Seq<char>>, n: Seq<char>)
    ensures
        add.contains(n) ==> after_delta(held, add, remove).contains(n),
        remove.contains(n) && !add.contains(n) ==> !after_delta(held, add, remove).contains(n),
        !add.contains(n) && !remove.contains(n) ==> after_delta(held, add, remove).contains(n) == held.contains(n),
{
}

/// An update gives the new description where there is one, and applies each
/// delta to its own set. A delta that says nothing is never over the cap.
pub proof fn updates_keep_what_they_do_not_name(
    was: groups::GroupView,
    description: Option<String>,
    add_contexts: Set<Seq<char>>,
    remove_contexts: Set<Seq<char>>,
    add_groups: Set<Seq<char>>,
    remove_groups: Set<Seq<char>>,
    cap: usize,
)
    ensures
        ({
            let now = updated_record(was, description, add_contexts, remove_contexts, add_groups, remove_groups);
            &&& description is None ==> now.description == was.description
            &&& description matches Some(d) ==> now.description == d@
            &&& now.contexts == after_delta(was.contexts, add_contexts, remove_contexts)
            &&& now.groups == after_delta(was.groups, add_groups, remove_groups)
            &&& (forall|n: Seq<char>| !add_contexts.contains(n) && !remove_contexts.contains(n)) ==> now.contexts
                == was.contexts && !delta_over(cap, was.contexts, add_contexts, remove_contexts)
            &&& (forall|n: Seq<char>| !add_groups.contains(n) && !remove_groups.contains(n)) ==> now.groups == was.groups
                && !delta_over(cap, was.groups, add_groups, remove_groups)
            &&& now.contexts.len() <= cap ==> !delta_over(cap, was.contexts, add_contexts, remove_contexts)
            &&& now.contexts.len() > cap && (exists|n: Seq<char>|
                add_contexts.contains(n) || remove_contexts.contains(n)) ==> delta_over(
                cap,
                was.contexts,
                add_contexts,
                remove_contexts,
            )
        }),
{
    let now = updated_record(was, description, add_contexts, remove_contexts, add_groups, remove_groups);
    if forall|n: Seq<char>| !add_contexts.contains(n) && !remove_contexts.contains(n) {
        assert(add_contexts =~= Set::<Seq<char>>::empty());
        assert(remove_contexts =~= Set::<Seq<char>>::empty());
        assert(now.contexts =~= was.contexts);
    }
    if forall|n: Seq<char>| !add_groups.contains(n) && !remove_groups.contains(n) {
        assert(add_groups =~= Set::<Seq<char>>::empty());
        assert(remove_groups =~= Set::<Seq<char>>::empty());
        assert(now.groups =~= was.groups);
    }
}

/// A page starts behind its cursor: the names from there on, and only those,
/// come after it in name order. Without a cursor it starts at the first.
pub proof fn pages_start_behind_the_cursor(order: Seq<Seq<char>>, after: Option<Seq<char>>, start: int, i: int)
    requires
        page_start(order, after, start),
        0 <= i < order.len(),
    ensures
        0 <= start <= order.len(),
        after is None ==> start == 0,
        after matches Some(cursor) ==> (i >= start <==> names::before(cursor, order[i])),
        after == Some(order[i]) ==> i < start,
{
    names::before_irreflexive(order[i]);
}

/// A group that was deleted is gone, from among the groups and from among the
/// children of every other; nothing else of those changes.
pub proof fn deleted_groups_are_gone_everywhere(
    m: Map<Seq<char>, groups::GroupView>,
    name: Seq<char>,
    g: Seq<char>,
    n: Seq<char>,
)
    ensures
        ({
            let after = group_removed(m, name);
            &&& after.contains_key(g) <==> g != name && m.contains_key(g)
            &&& after.contains_key(g) ==> after[g].description == m[g].description && after[g].contexts == m[g].contexts
                && !after[g].groups.contains(name)
            &&& after.contains_key(g) && n != name ==> after[g].groups.contains(n) == m[g].groups.contains(n)
        }),
{
}

/// An update goes through exactly where the group is there, neither delta
/// takes its set over the cap, all that is added is there, and the nesting
/// still fits; what is refused is refused for the first of these that is not
/// so.
pub proof fn groups_are_updated_with_what_is_there(
    state: AppState,
    after: AppState,
    name: Seq<char>,
    description: Option<String>,
    add_contexts: Set<Seq<char>>,
    remove_contexts: Set<Seq<char>>,
    add_groups: Set<Seq<char>>,
    remove_groups: Set<Seq<char>>,
    res: Result<GroupRecord, UpdateGroupError>,
)
    requires
        update_gate(state, after, name, description, add_contexts, remove_contexts, add_groups, remove_groups, res),
    ensures
        ({
            let cap = state.options.max_group_members;
            let there = state.groups@.contains_key(name);
            let was = groups_of(state)[name];
            let now = updated_record(was, description, add_contexts, remove_contexts, add_groups, remove_groups);
            let over = delta_over(cap, was.contexts, add_contexts, remove_contexts) || delta_over(
                cap,
                was.groups,
                add_groups,
                remove_groups,
            );
            let members = forall|c: Seq<char>| #[trigger] add_contexts.contains(c) ==> state.registry@.contains_key(c);
            let children = forall|g: Seq<char>| #[trigger] add_groups.contains(g) ==> state.groups@.contains_key(g);
            let fits = groups::nesting_fits(groups_of(state).insert(name, now));
            &&& (res matches Err(UpdateGroupError::NotFound)) <==> !there
            &&& (res matches Err(UpdateGroupError::OverCap(_))) <==> there && over
            &&& (res matches Err(UpdateGroupError::NoSuchContext(_))) <==> there && !over && !members
            &&& (res matches Err(UpdateGroupError::NoSuchGroup(_))) <==> there && !over && members && !children
            &&& (res matches Err(UpdateGroupError::Nesting(_))) <==> there && !over && members && children && !fits
            &&& res is Ok <==> there && !over && members && children && fits
            &&& res is Ok ==> groups_of(after) == groups_of(state).insert(name, now) && res->Ok_0 == state.groups@[name]
        }),
{
    let members = forall|c: Seq<char>| #[trigger] add_contexts.contains(c) ==> state.registry@.contains_key(c);
    let children = forall|g: Seq<char>| #[trigger] add_groups.contains(g) ==> state.groups@.contains_key(g);
    assert(members == add_contexts.subset_of(state.registry@.dom()));
    assert(children == add_groups.subset_of(state.groups@.dom()));
    assert(groups_of(state).contains_key(name) == state.groups@.contains_key(name));
}

/// A name is a member or a child somewhere exactly where some group says so.
pub proof fn members_and_children_are_found(state: AppState, name: Seq<char>, g: Seq<char>)
    ensures
        groups_of(state).contains_key(g) && groups_of(state)[g].contexts.contains(name) ==> has_member(state, name),
        groups_of(state).contains_key(g) && groups_of(state)[g].groups.contains(name) ==> named_as_child(state, name),
        has_member(state, name) ==> exists|h: Seq<char>| #[trigger]
            groups_of(state).contains_key(h) && groups_of(state)[h].contexts.contains(name),
        named_as_child(state, name) ==> exists|h: Seq<char>| #[trigger]
            groups_of(state).contains_key(h) && groups_of(state)[h].groups.contains(name),
        state.groups@.contains_key(g) ==> groups_of(state)[g] == state.groups@[g]@,
        groups_of(state).contains_key(g) == state.groups@.contains_key(g),
{
}

/// Groups in order nest three deep at most, keep both sets under the cap, and
/// name only what there is, or what is just being deleted or renamed.
pub proof fn groups_in_order_name_what_there_is(state: AppState, g: Seq<char>, n: Seq<char>)
    requires
        state.groups_ok(),
        state.groups@.contains_key(g),
    ensures
        ({
            let record = state.groups@[g]@;
            &&& groups::nesting_fits(groups_of(state))
            &&& record.contexts.len() <= state.options.max_group_members
            &&& record.groups.len() <= state.options.max_group_members
            &&& record.groups.contains(n) ==> state.groups@.contains_key(n)
            &&& record.contexts.contains(n) ==> state.registry@.contains_key(n) || state.pending.deletes@.contains(n)
                || state.pending.renames@.contains(n)
        }),
{
    assert(groups_of(state).contains_key(g));
    assert(state.group_ok(groups_of(state)[g]));
}

} // verus!
