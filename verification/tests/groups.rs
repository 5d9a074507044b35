//! Groups: their members and their nesting, against a disk held in memory.
use registry::group_ops::{
    check_member_caps, CreateGroupError, GroupRename, RenameGroupError, UpdateGroupError,
};
use registry::group_restore::{GroupRestoreOutcome, RestoreGroupsError, RestoreStep};
use registry::groups::{
    context_closure, nesting_depth, repair_nesting, validate_nesting, GroupRecord, NestingViolation, MAX_GROUP_DEPTH,
};
use registry::names::{NameMap, NameSet};
use registry::paths::{
    file_stem, group_path, group_renaming_marker_path, name_from_stem, rename_markers_targeting, resume_rename_markers,
    RenameMarker,
};
use registry::state::{AppState, ContextMeta, ContextStats, IoFault, Options, PerContextMetrics};
use std::collections::{BTreeMap, BTreeSet};

const MAX_GROUP_MEMBERS: usize = 100;

fn options() -> Options {
    Options {
        cache_bytes: u64::MAX,
        wal_enabled: true,
        wal_max_bytes: 0,
        per_context_metrics: PerContextMetrics::Off,
        load_retry: 30,
        max_group_members: MAX_GROUP_MEMBERS,
        embed_passages: false,
        embedding_model: None,
        semantic_floor: 0,
    }
}

fn fault(message: &str) -> IoFault {
    IoFault { not_found: false, message: message.to_string() }
}

fn set(names: &[&str]) -> NameSet {
    NameSet::of(&names.iter().map(|name| name.to_string()).collect())
}

fn set_of(names: Vec<String>) -> NameSet {
    NameSet::of(&names)
}

fn record(description: &str, contexts: &[&str], children: &[&str]) -> GroupRecord {
    GroupRecord { description: description.to_string(), contexts: set(contexts), groups: set(children) }
}

/// Names `c0000`, `c0001` and on.
fn many(n: usize) -> NameSet {
    set_of((0..n).map(|i| format!("c{i:04}")).collect())
}

struct World {
    state: AppState,
    contexts: BTreeSet<String>,
    files: BTreeMap<String, GroupRecord>,
    markers: BTreeMap<String, (String, String)>,
    blocked: BTreeSet<String>,
    fail_after: Option<usize>,
    fired: bool,
}

impl World {
    fn boot(
        contexts: BTreeSet<String>,
        files: BTreeMap<String, GroupRecord>,
        markers: BTreeMap<String, (String, String)>,
    ) -> World {
        let state = AppState::new(options(), NameMap::new(), None, 0, None);
        let mut world =
            World { state, contexts: BTreeSet::new(), files, markers, blocked: BTreeSet::new(), fail_after: None, fired: false };
        for name in &contexts {
            world.create(name);
        }
        let found = world.found().into_iter().map(|(_, marker)| marker).collect();
        let resumed = resume_rename_markers(&found);
        for marker in &resumed {
            let (from, to) = (group_path(&file_stem(&marker.from)), group_path(&file_stem(&marker.to)));
            if let Some(moved) = world.files.remove(&from) {
                world.files.insert(to, moved);
            }
        }
        for marker in &resumed {
            for file in world.files.values_mut() {
                if file.groups.remove(&marker.from) {
                    file.groups.insert(marker.to.clone());
                }
            }
            world.markers.remove(&group_renaming_marker_path(&file_stem(&marker.from)));
        }
        for (file, content) in &world.files {
            let name = name_from_stem(file.strip_suffix(&group_path("")).unwrap()).unwrap();
            world.state.groups.insert(name, content.copy());
        }
        for name in world.state.reconcile_groups() {
            let standing = world.state.group(&name).unwrap();
            world.files.insert(group_path(&file_stem(&name)), standing);
        }
        world
    }

    fn new() -> World {
        World::boot(BTreeSet::new(), BTreeMap::new(), BTreeMap::new())
    }

    fn with(contexts: &[&str]) -> World {
        World::boot(contexts.iter().map(|name| name.to_string()).collect(), BTreeMap::new(), BTreeMap::new())
    }

    fn reboot(self) -> World {
        World::boot(self.contexts, self.files, self.markers)
    }

    fn found(&self) -> Vec<(String, RenameMarker)> {
        self.markers
            .iter()
            .map(|(file, (from, to))| (file.clone(), RenameMarker { from: from.clone(), to: to.clone() }))
            .collect()
    }

    fn op(&mut self) -> Result<(), IoFault> {
        match self.fail_after {
            Some(0) => {
                self.fail_after = None;
                self.fired = true;
                Err(fault("injected"))
            }
            Some(n) => {
                self.fail_after = Some(n - 1);
                Ok(())
            }
            None => Ok(()),
        }
    }

    fn fail_after(&mut self, ops: usize) {
        self.fail_after = Some(ops);
        self.fired = false;
    }

    fn clear_fault(&mut self) -> bool {
        self.fail_after = None;
        !self.fired
    }

    fn persist(&mut self, name: &str, content: GroupRecord) -> Result<(), IoFault> {
        self.op()?;
        self.op()?;
        if self.blocked.contains(name) {
            return Err(fault("occupied"));
        }
        self.files.insert(group_path(&file_stem(name)), content);
        Ok(())
    }

    fn persist_all(&mut self, touched: &[String]) {
        for name in touched {
            let content = self.state.group(name).unwrap();
            let _ = self.persist(name, content);
        }
    }

    fn create(&mut self, name: &str) {
        assert!(self.state.create(name).is_ok());
        assert!(self.state.settle_created(name, ContextMeta::default(), Ok((ContextStats::default(), 0))).is_ok());
        self.contexts.insert(name.to_string());
    }

    fn delete(&mut self, name: &str) {
        assert!(matches!(self.state.delete(name), Some(Ok(()))));
        let touched = self.state.sweep_context_from_groups(name);
        self.persist_all(&touched);
        assert!(self.state.settle_deleted(name, Ok(())).is_ok());
        self.contexts.remove(name);
    }

    fn create_group(
        &mut self,
        name: &str,
        description: &str,
        contexts: NameSet,
        children: NameSet,
    ) -> Result<(), CreateGroupError> {
        let draft = self.state.create_group(name, description.to_string(), contexts, children)?;
        self.markers.remove(&group_renaming_marker_path(&file_stem(name)));
        for stale in rename_markers_targeting(&self.found(), name) {
            self.markers.remove(&stale);
        }
        self.state.admit_group(draft, Ok(()))?;
        let content = self.state.group(name).unwrap();
        let written = self.persist(name, content);
        self.state.settle_created_group(name, written)
    }

    fn update_group(
        &mut self,
        name: &str,
        description: Option<&str>,
        add_contexts: NameSet,
        remove_contexts: NameSet,
        add_groups: NameSet,
        remove_groups: NameSet,
    ) -> Result<GroupRecord, UpdateGroupError> {
        let previous = self.state.update_group(
            name,
            description.map(|text| text.to_string()),
            &add_contexts,
            &remove_contexts,
            &add_groups,
            &remove_groups,
        )?;
        let content = self.state.group(name).unwrap();
        let written = self.persist(name, content);
        self.state.settle_updated_group(name, previous, written)
    }

    fn add_child(&mut self, name: &str, child: &str) -> Result<GroupRecord, UpdateGroupError> {
        self.update_group(name, None, NameSet::new(), NameSet::new(), set(&[child]), NameSet::new())
    }

    fn describe(&mut self, name: &str, text: &str) -> Result<GroupRecord, UpdateGroupError> {
        self.update_group(name, Some(text), NameSet::new(), NameSet::new(), NameSet::new(), NameSet::new())
    }

    fn delete_group(&mut self, name: &str) -> Option<()> {
        let touched = self.state.delete_group(name)?;
        if self.op().is_ok() {
            self.files.remove(&group_path(&file_stem(name)));
        }
        self.persist_all(&touched);
        Some(())
    }

    fn rename_group(&mut self, from: &str, to: &str) -> Result<(), RenameGroupError> {
        if let GroupRename::Nothing = self.state.rename_group(from, to)? {
            return Ok(());
        }
        let marker = group_renaming_marker_path(&file_stem(from));
        self.markers.insert(marker.clone(), (from.to_string(), to.to_string()));
        let content = self.files.remove(&group_path(&file_stem(from))).unwrap();
        self.files.insert(group_path(&file_stem(to)), content);
        let touched = self.state.settle_renamed_group(from, to, Ok(()))?;
        self.persist_all(&touched);
        self.markers.remove(&marker);
        Ok(())
    }

    fn restore(
        &mut self,
        records: &Vec<(String, GroupRecord)>,
        expired: bool,
    ) -> Result<Vec<(String, GroupRestoreOutcome)>, RestoreGroupsError> {
        let mut plan = self.state.restore_groups(records)?;
        loop {
            match self.state.restore_step(&mut plan, expired) {
                RestoreStep::Done => return Ok(plan.outcomes),
                RestoreStep::Skipped => {}
                RestoreStep::Failed(error) => return Err(error),
                RestoreStep::Write(at) => {
                    let (name, content) = &records[at];
                    let written = self.persist(name, content.copy());
                    self.state.restore_written(records, &mut plan, at, written)?;
                }
            }
        }
    }

    fn contexts(&self, group: &str) -> Vec<String> {
        self.state.group(group).unwrap().contexts.names()
    }

    fn children(&self, group: &str) -> Vec<String> {
        self.state.group(group).unwrap().groups.names()
    }

    fn on_disk(&self, group: &str) -> Option<&GroupRecord> {
        self.files.get(&group_path(&file_stem(group)))
    }

    fn has_group(&self, name: &str) -> bool {
        self.state.group(name).is_some()
    }

    fn assert_invariants(&self) {
        assert!(validate_nesting(&self.state.groups).is_ok());
        for at in 0..self.state.groups.len() {
            let standing = self.state.groups.value_at(at);
            assert!(standing.contexts.len() <= MAX_GROUP_MEMBERS);
            assert!(standing.groups.len() <= MAX_GROUP_MEMBERS);
            assert!(standing.contexts.names().iter().all(|name| self.state.registry.get(name).is_some()));
            assert!(standing.groups.names().iter().all(|name| self.has_group(name)));
        }
    }
}

fn records(list: &[(&str, GroupRecord)]) -> Vec<(String, GroupRecord)> {
    list.iter().map(|(name, content)| (name.to_string(), content.copy())).collect()
}

#[test]
fn group_crud_validates_members_and_survives_a_reboot() {
    let mut world = World::with(&["sake", "beer"]);
    assert!(world.create_group("drinks", "beverage knowledge", set(&["sake"]), NameSet::new()).is_ok());
    assert!(matches!(
        world.create_group("drinks", "", NameSet::new(), NameSet::new()),
        Err(CreateGroupError::AlreadyExists)
    ));
    assert!(matches!(world.create_group("", "", NameSet::new(), NameSet::new()), Err(CreateGroupError::InvalidName)));
    assert!(matches!(
        world.create_group("ghosts", "", set(&["nope"]), NameSet::new()),
        Err(CreateGroupError::NoSuchContext(missing)) if missing == "nope"
    ));
    assert!(!world.has_group("ghosts"));
    assert!(world.on_disk("ghosts").is_none());

    assert!(matches!(
        world.update_group("drinks", None, set(&["nope"]), NameSet::new(), NameSet::new(), NameSet::new()),
        Err(UpdateGroupError::NoSuchContext(missing)) if missing == "nope"
    ));
    assert_eq!(world.contexts("drinks"), ["sake"]);
    let updated = world
        .update_group("drinks", Some("all drinks"), set(&["beer"]), set(&["sake"]), NameSet::new(), NameSet::new())
        .ok()
        .unwrap();
    assert_eq!(updated.description, "all drinks");
    assert_eq!(updated.contexts.names(), ["beer"]);
    assert!(matches!(world.describe("ghosts", "x"), Err(UpdateGroupError::NotFound)));

    let mut world = world.reboot();
    let survived = world.state.group("drinks").unwrap();
    assert_eq!(survived.description, "all drinks");
    assert_eq!(survived.contexts.names(), ["beer"]);

    assert!(world.delete_group("drinks").is_some());
    assert!(!world.has_group("drinks"));
    assert!(world.delete_group("drinks").is_none());
    assert!(world.on_disk("drinks").is_none());
    let (total, page) = world.state.group_page(None, usize::MAX);
    assert_eq!((total, page.len()), (0, 0));
    assert!(world.state.registry.get("beer").is_some());
}

#[test]
fn every_group_write_persistence_failure_rolls_back_and_retries() {
    let mut exhausted = false;
    for failure in 0..8 {
        let mut world = World::new();
        assert!(world.create_group("drinks", "old", NameSet::new(), NameSet::new()).is_ok());
        world.fail_after(failure);
        let first = world.describe("drinks", "new");
        let past_end = world.clear_fault();
        if past_end {
            assert!(first.is_ok());
        } else {
            assert!(matches!(first, Err(UpdateGroupError::Io(_))));
            assert_eq!(world.state.group("drinks").unwrap().description, "old");
            assert!(world.describe("drinks", "new").is_ok());
        }
        let world = world.reboot();
        assert_eq!(world.state.group("drinks").unwrap().description, "new");
        if past_end {
            exhausted = true;
            break;
        }
    }
    assert!(exhausted, "group write exceeded the sweep bound");
}

#[test]
fn deleting_a_context_sweeps_it_out_of_every_group() {
    let mut world = World::with(&["sake", "beer"]);
    for group in ["drinks", "fermented"] {
        assert!(world.create_group(group, "", set(&["sake", "beer"]), NameSet::new()).is_ok());
    }
    world.delete("sake");
    for group in ["drinks", "fermented"] {
        assert_eq!(world.contexts(group), ["beer"], "'{group}' still names the deleted context");
    }
    let world = world.reboot();
    for group in ["drinks", "fermented"] {
        assert_eq!(world.contexts(group), ["beer"]);
    }
}

#[test]
fn group_membership_is_capped_per_set_and_judged_before_existence() {
    let mut world = World::with(&["real"]);
    let over = || many(MAX_GROUP_MEMBERS + 1);
    assert!(matches!(
        world.create_group("g", "", over(), NameSet::new()),
        Err(CreateGroupError::OverCap("member contexts"))
    ));
    assert!(matches!(
        world.create_group("g", "", NameSet::new(), over()),
        Err(CreateGroupError::OverCap("child groups"))
    ));
    assert!(!world.has_group("g"));

    assert!(world.create_group("g", "", set(&["real"]), NameSet::new()).is_ok());
    let cap_many = || many(MAX_GROUP_MEMBERS);
    assert!(matches!(
        world.update_group("g", None, cap_many(), NameSet::new(), NameSet::new(), NameSet::new()),
        Err(UpdateGroupError::OverCap("member contexts"))
    ));
    assert!(matches!(
        world.update_group("g", None, cap_many(), set(&["real"]), NameSet::new(), NameSet::new()),
        Err(UpdateGroupError::NoSuchContext(missing)) if missing == "c0000"
    ));
    assert!(matches!(
        world.update_group("g", None, NameSet::new(), NameSet::new(), over(), NameSet::new()),
        Err(UpdateGroupError::OverCap("child groups"))
    ));
    assert_eq!(world.contexts("g"), ["real"]);
    assert_eq!(check_member_caps(1, &set(&["a"]), &set(&["b"])), Ok(()));
    assert_eq!(check_member_caps(1, &set(&["a", "b"]), &set(&["b", "c"])), Err("member contexts"));
}

#[test]
fn restore_groups_replaces_whole_records_and_reports_what_stood() {
    let mut world = World::with(&["sake", "bunko"]);
    assert!(world.create_group("kura", "old", set(&["sake", "bunko"]), NameSet::new()).is_ok());
    assert!(world.create_group("parent", "", NameSet::new(), set(&["kura"])).is_ok());

    let wanted = records(&[("kura", record("new", &["sake"], &["kid"])), ("kid", record("new", &["bunko"], &[]))]);
    let outcomes = world.restore(&wanted, false).ok().unwrap();
    assert_eq!(outcomes[0].1.as_str(), "replaced");
    assert_eq!(outcomes[1].1.as_str(), "created");
    assert!(world.state.group("kura").unwrap().equals(&wanted[0].1));
    assert_eq!(world.children("parent"), ["kura"]);
    assert!(world.on_disk("kid").unwrap().equals(&wanted[1].1));
    assert_eq!(world.state.group_restore_involves(&wanted).names(), ["bunko", "sake"]);

    let again = world.restore(&wanted, false).ok().unwrap();
    assert!(again.iter().all(|(_, outcome)| outcome.as_str() == "unchanged"));
}

#[test]
fn restore_groups_reports_how_many_landed_before_an_io_failure() {
    let mut world = World::new();
    world.blocked.insert("b".to_string());
    let wanted = records(&[("a", record("", &[], &[])), ("b", record("", &[], &[]))]);
    let error = world.restore(&wanted, false).err().unwrap();
    assert!(matches!(&error, RestoreGroupsError::Io { group, .. } if group == "b"));
    assert_eq!(error.applied(), 1, "\"a\" already landed when \"b\" failed");
    assert!(world.has_group("a"), "\"a\"'s successful write must not be rolled back");
}

#[test]
fn restore_groups_counts_an_unchanged_record_as_already_landed() {
    let mut world = World::new();
    assert!(world.restore(&records(&[("a", record("", &[], &[]))]), false).is_ok());
    world.blocked.insert("b".to_string());
    let wanted = records(&[("a", record("", &[], &[])), ("b", record("", &[], &[]))]);
    let error = world.restore(&wanted, false).err().unwrap();
    assert!(matches!(&error, RestoreGroupsError::Io { group, .. } if group == "b"));
    assert_eq!(error.applied(), 1, "\"a\" must count as landed via the unchanged branch");
}

#[test]
fn restore_groups_stops_at_an_expired_deadline_without_writing() {
    let mut world = World::new();
    let error = world.restore(&records(&[("a", record("", &[], &[]))]), true).err().unwrap();
    assert!(matches!(&error, RestoreGroupsError::Timeout { applied: 0 }));
    assert_eq!(error.applied(), 0);
    assert!(!world.has_group("a"), "no record may land past the budget");
    assert!(world.on_disk("a").is_none(), "no group file may be written past the budget");
}

#[test]
fn restore_groups_judges_the_whole_set_before_writing_anything() {
    let mut world = World::with(&["sake"]);
    let refusal = world
        .restore(&records(&[("fine", record("", &["sake"], &[])), ("broken", record("", &["ghost"], &[]))]), false)
        .err()
        .unwrap();
    assert!(matches!(
        &refusal,
        RestoreGroupsError::NoSuchContext { group, context } if group == "broken" && context == "ghost"
    ));
    assert_eq!(refusal.applied(), 0);
    assert!(!world.has_group("fine"), "nothing applies on a refusal");

    assert!(matches!(
        world.restore(&records(&[("a", record("", &[], &["nope"]))]), false).err().unwrap(),
        RestoreGroupsError::NoSuchChild { group, child } if group == "a" && child == "nope"
    ));
    assert!(matches!(
        world
            .restore(&records(&[("a", record("", &[], &["b"])), ("b", record("", &[], &["a"]))]), false)
            .err()
            .unwrap(),
        RestoreGroupsError::Nesting(NestingViolation::Cycle(_))
    ));

    assert!(world.create_group("mid", "", NameSet::new(), NameSet::new()).is_ok());
    assert!(world.create_group("top", "", NameSet::new(), set(&["mid"])).is_ok());
    let deep = records(&[
        ("mid", record("", &[], &["deep"])),
        ("deep", record("", &[], &["deeper"])),
        ("deeper", record("", &[], &[])),
    ]);
    assert!(matches!(
        world.restore(&deep, false).err().unwrap(),
        RestoreGroupsError::Nesting(NestingViolation::TooDeep(_))
    ));
    assert!(!world.has_group("deep"));

    let twice = records(&[("dup", record("", &[], &[])), ("dup", record("", &["sake"], &[]))]);
    assert!(matches!(
        world.restore(&twice, false).err().unwrap(),
        RestoreGroupsError::Duplicate(name) if name == "dup"
    ));
    let wide = vec![(
        "wide".to_string(),
        GroupRecord { description: String::new(), contexts: many(MAX_GROUP_MEMBERS + 1), groups: NameSet::new() },
    )];
    assert!(matches!(
        world.restore(&wide, false).err().unwrap(),
        RestoreGroupsError::OverCap { field: "member contexts", .. }
    ));
    assert!(matches!(
        world.restore(&records(&[("", record("", &[], &[]))]), false).err().unwrap(),
        RestoreGroupsError::InvalidName
    ));
}

#[test]
fn groups_nest_to_the_cap_without_cycles_and_sweep_deleted_children() {
    let mut world = World::with(&["sake", "beer", "tea"]);
    assert!(world.create_group("leaf", "", set(&["tea"]), NameSet::new()).is_ok());
    assert!(world.create_group("mid", "", set(&["beer"]), set(&["leaf"])).is_ok());
    assert!(world.create_group("top", "", set(&["sake"]), set(&["mid"])).is_ok());
    assert_eq!(world.state.group_context_closures(&vec!["top".to_string()]).names(), ["beer", "sake", "tea"]);
    assert_eq!(world.contexts("top"), ["sake"]);
    assert_eq!(nesting_depth(&world.state.groups, "top"), MAX_GROUP_DEPTH as u64);
    assert_eq!(nesting_depth(&world.state.groups, "leaf"), 1);

    assert!(matches!(
        world.create_group("over", "", NameSet::new(), set(&["top"])),
        Err(CreateGroupError::Nesting(NestingViolation::TooDeep(_)))
    ));
    assert!(!world.has_group("over"));
    assert!(world.on_disk("over").is_none());
    assert!(matches!(world.add_child("leaf", "top"), Err(UpdateGroupError::Nesting(NestingViolation::Cycle(_)))));
    assert!(matches!(world.add_child("leaf", "leaf"), Err(UpdateGroupError::Nesting(NestingViolation::Cycle(_)))));
    assert!(matches!(
        world.add_child("leaf", "nope"),
        Err(UpdateGroupError::NoSuchGroup(missing)) if missing == "nope"
    ));
    assert!(matches!(
        world.create_group("stray", "", NameSet::new(), set(&["nope"])),
        Err(CreateGroupError::NoSuchGroup(missing)) if missing == "nope"
    ));
    assert!(world.children("leaf").is_empty());

    assert!(world.delete_group("mid").is_some());
    assert!(world.children("top").is_empty());
    let world = world.reboot();
    assert!(world.children("top").is_empty());
    assert_eq!(world.contexts("leaf"), ["tea"]);
}

#[test]
fn arbitrary_group_operations_continuously_preserve_store_invariants() {
    let contexts = ["a", "b", "c", "d"];
    let groups = ["g", "h", "i", "j", "k"];
    let mut seed: u64 = 0x2545_f491_4f6c_dd1d;
    let mut next = |bound: usize| {
        seed = seed.wrapping_mul(6_364_136_223_846_793_005).wrapping_add(1_442_695_040_888_963_407);
        (seed >> 33) as usize % bound
    };
    for _ in 0..64 {
        let mut world = World::new();
        for _ in 0..48 {
            let mut pick = |pool: &[&str]| {
                let chosen: Vec<&str> = pool.iter().filter(|_| next(3) == 0).copied().collect();
                set(&chosen)
            };
            let (some_contexts, more_contexts) = (pick(&contexts), pick(&contexts));
            let (some_groups, more_groups) = (pick(&groups), pick(&groups));
            let context = contexts[next(contexts.len())];
            let group = groups[next(groups.len())];
            match next(5) {
                0 => {
                    if world.state.registry.get(context).is_none() {
                        world.create(context);
                    }
                }
                1 => {
                    if world.state.registry.get(context).is_some() {
                        world.delete(context);
                    }
                }
                2 => {
                    let _ = world.create_group(group, "", some_contexts, some_groups);
                }
                3 => {
                    let _ = world.update_group(group, None, some_contexts, more_contexts, some_groups, more_groups);
                }
                _ => {
                    let _ = world.delete_group(group);
                }
            }
            world.assert_invariants();
        }
    }
}

#[test]
fn a_failed_group_persist_rolls_the_update_back() {
    let mut world = World::with(&["sake"]);
    assert!(world.create_group("drinks", "before", set(&["sake"]), NameSet::new()).is_ok());
    world.blocked.insert("drinks".to_string());
    let outcome =
        world.update_group("drinks", Some("after"), NameSet::new(), set(&["sake"]), NameSet::new(), NameSet::new());
    assert!(matches!(outcome, Err(UpdateGroupError::Io(_))));
    let standing = world.state.group("drinks").unwrap();
    assert_eq!(standing.description, "before");
    assert_eq!(standing.contexts.names(), ["sake"]);
}

#[test]
fn a_failed_group_create_leaves_no_group() {
    let mut world = World::new();
    world.blocked.insert("drinks".to_string());
    assert!(matches!(
        world.create_group("drinks", "", NameSet::new(), NameSet::new()),
        Err(CreateGroupError::Io(_))
    ));
    assert!(!world.has_group("drinks"));
    let Ok(draft) = world.state.create_group("food", String::new(), NameSet::new(), NameSet::new()) else {
        panic!("refused")
    };
    assert!(matches!(world.state.admit_group(draft, Err(fault("stuck"))), Err(CreateGroupError::Io(_))));
    assert!(!world.has_group("food"));
}

#[test]
fn rename_group_moves_the_file_and_rewrites_parent_membership() {
    let mut world = World::with(&["sake"]);
    assert!(world.create_group("liquor", "d", set(&["sake"]), NameSet::new()).is_ok());
    assert!(world.create_group("drinks", "", NameSet::new(), set(&["liquor"])).is_ok());
    assert!(world.rename_group("liquor", "spirits").is_ok());
    assert!(!world.has_group("liquor"));
    let spirits = world.state.group("spirits").unwrap();
    assert_eq!(spirits.description, "d");
    assert_eq!(spirits.contexts.names(), ["sake"]);
    assert_eq!(world.children("drinks"), ["spirits"], "the parent's child reference follows the rename");
    assert!(world.on_disk("liquor").is_none());
    assert!(world.on_disk("spirits").is_some());
    assert!(world.markers.is_empty());

    let world = world.reboot();
    assert!(!world.has_group("liquor"));
    assert_eq!(world.children("drinks"), ["spirits"]);
}

#[test]
fn creating_a_group_abandons_a_rename_marker_at_its_own_stem() {
    let mut world = World::new();
    let marker = group_renaming_marker_path(&file_stem("liquor"));
    world.markers.insert(marker, ("liquor".to_string(), "spirits".to_string()));
    assert!(world.create_group("liquor", "", NameSet::new(), NameSet::new()).is_ok());
    assert!(world.markers.is_empty(), "create_group must clear a rename marker sitting at its own stem");
    let world = world.reboot();
    assert!(world.has_group("liquor"));
    assert!(!world.has_group("spirits"));
    assert!(world.on_disk("liquor").is_some());
    assert!(world.on_disk("spirits").is_none());
}

#[test]
fn creating_a_group_abandons_a_rename_marker_naming_it_as_destination() {
    let mut world = World::new();
    assert!(world.create_group("liquor", "", NameSet::new(), NameSet::new()).is_ok());
    let marker = group_renaming_marker_path(&file_stem("liquor"));
    world.markers.insert(marker, ("liquor".to_string(), "spirits".to_string()));
    assert!(world.create_group("spirits", "", NameSet::new(), NameSet::new()).is_ok());
    assert!(world.markers.is_empty(), "create_group must clear a rename marker that names it as the destination");
    let world = world.reboot();
    assert!(world.has_group("liquor"), "the abandoned rename must leave the untouched source group intact");
    assert!(world.has_group("spirits"), "the freshly created destination group must survive");
}

#[test]
fn rename_group_error_cases() {
    let mut world = World::new();
    assert!(world.create_group("drinks", "", NameSet::new(), NameSet::new()).is_ok());
    assert!(world.create_group("food", "", NameSet::new(), NameSet::new()).is_ok());
    assert!(matches!(world.rename_group("missing", "whatever"), Err(RenameGroupError::NotFound)));
    assert!(matches!(world.rename_group("drinks", "food"), Err(RenameGroupError::AlreadyExists)));
    assert!(matches!(world.rename_group("drinks", ""), Err(RenameGroupError::InvalidName)));
    assert!(world.rename_group("drinks", "drinks").is_ok());
    assert!(world.has_group("drinks"));
    assert!(matches!(
        world.state.settle_renamed_group("drinks", "wine", Err(fault("stuck"))),
        Err(RenameGroupError::Io(_))
    ));
    assert!(world.has_group("drinks") && !world.has_group("wine"));
}

#[test]
fn every_group_delete_persistence_failure_reconciles_at_boot() {
    let mut exhausted = false;
    for failure in 0..8 {
        let mut world = World::new();
        assert!(world.create_group("leaf", "", NameSet::new(), NameSet::new()).is_ok());
        assert!(world.create_group("parent", "", NameSet::new(), set(&["leaf"])).is_ok());
        world.fail_after(failure);
        world.delete_group("leaf").unwrap();
        let past_end = world.clear_fault();
        assert!(world.children("parent").is_empty(), "memory forgets the child whatever the disk says");
        let world = world.reboot();
        assert!(world.children("parent").is_empty(), "failure at step {failure} left a dangling child after boot");
        if past_end {
            exhausted = true;
            break;
        }
    }
    assert!(exhausted, "group deletion exceeded the sweep bound");
}

#[test]
fn boot_reconciliation_drops_dangling_members_and_rewrites_the_file() {
    let files = BTreeMap::from([(group_path(&file_stem("drinks")), record("d", &["sake", "gone"], &[]))]);
    let world = World::boot(BTreeSet::from(["sake".to_string()]), files, BTreeMap::new());
    assert_eq!(world.contexts("drinks"), ["sake"]);
    assert_eq!(world.on_disk("drinks").unwrap().contexts.names(), ["sake"], "the dangling member survived on disk");
}

#[test]
fn boot_reconciliation_untangles_hand_written_nesting() {
    let mut files = BTreeMap::new();
    for (name, children) in [
        ("cyc-a", vec!["cyc-b"]),
        ("cyc-b", vec!["cyc-a"]),
        ("n1", vec!["ghost", "n2"]),
        ("n2", vec!["n3"]),
        ("n3", vec!["n4"]),
        ("n4", vec![]),
    ] {
        files.insert(group_path(&file_stem(name)), record("", &[], &children));
    }
    let world = World::boot(BTreeSet::new(), files, BTreeMap::new());
    assert_eq!(world.children("n1"), ["n2"]);
    assert_eq!(world.children("n2"), ["n3"]);
    assert!(world.children("n3").is_empty());
    assert_eq!(world.children("cyc-a"), ["cyc-b"]);
    assert!(world.children("cyc-b").is_empty());
    for (group, dropped) in [("cyc-b", "cyc-a"), ("n3", "n4"), ("n1", "ghost")] {
        assert!(
            !world.on_disk(group).unwrap().groups.contains(dropped),
            "'{group}' still names '{dropped}' on disk"
        );
    }
}

#[test]
fn an_unfinished_group_rename_is_resumed_at_boot_before_group_reconciliation() {
    let mut world = World::with(&["sake"]);
    assert!(world.create_group("liquor", "", set(&["sake"]), NameSet::new()).is_ok());
    assert!(world.create_group("drinks", "", NameSet::new(), set(&["liquor"])).is_ok());
    let marker = group_renaming_marker_path(&file_stem("liquor"));
    world.markers.insert(marker, ("liquor".to_string(), "spirits".to_string()));
    let world = world.reboot();
    assert!(!world.has_group("liquor"));
    assert_eq!(world.contexts("spirits"), ["sake"], "the renamed group must exist");
    assert_eq!(
        world.children("drinks"),
        ["spirits"],
        "the parent must be REWRITTEN to the new child name, not pruned as dangling"
    );
    assert!(world.on_disk("liquor").is_none());
    assert!(world.on_disk("spirits").is_some());
    assert!(world.markers.is_empty());
}

#[test]
fn reconciling_touches_only_what_changed_and_only_once() {
    let mut world = World::with(&["sake"]);
    for (name, content) in [
        ("clean", record("c", &["sake"], &["leaf"])),
        ("leaf", record("", &[], &[])),
        ("member", record("m", &["gone", "sake"], &[])),
        ("parent", record("p", &[], &["ghost", "leaf"])),
        ("self", record("s", &[], &["self"])),
    ] {
        world.state.groups.insert(name.to_string(), content);
    }
    assert_eq!(world.state.reconcile_groups(), ["member", "parent", "self"]);
    assert_eq!(world.contexts("clean"), ["sake"]);
    assert_eq!(world.children("clean"), ["leaf"]);
    assert_eq!(world.contexts("member"), ["sake"]);
    assert_eq!(world.state.group("member").unwrap().description, "m");
    assert_eq!(world.children("parent"), ["leaf"]);
    assert!(world.children("self").is_empty());
    assert!(world.state.reconcile_groups().is_empty(), "one reconciliation is enough");
}

#[test]
fn repair_leaves_a_sound_nesting_alone_and_only_drops_edges() {
    let mut sound = NameMap::new();
    sound.insert("a".to_string(), record("", &["x"], &["b"]));
    sound.insert("b".to_string(), record("", &["y"], &[]));
    let repaired = repair_nesting(sound);
    assert_eq!(repaired.get("a").unwrap().groups.names(), ["b"]);
    assert_eq!(context_closure(&repaired, &vec!["a".to_string()]).names(), ["x", "y"]);

    let mut own = NameMap::new();
    own.insert("a".to_string(), record("", &["x"], &["a"]));
    assert!(matches!(validate_nesting(&own), Err(NestingViolation::Cycle(name)) if name == "a"));
    let repaired = repair_nesting(own);
    assert!(repaired.get("a").unwrap().groups.is_empty());
    assert_eq!(repaired.get("a").unwrap().contexts.names(), ["x"]);
    assert!(validate_nesting(&repaired).is_ok());
}

#[test]
fn pages_walk_the_groups_in_name_order() {
    let mut world = World::new();
    for name in ["c", "a", "d", "b"] {
        assert!(world.create_group(name, name, NameSet::new(), NameSet::new()).is_ok());
    }
    let (total, page) = world.state.group_page(None, 2);
    assert_eq!(total, 4);
    assert_eq!(page.iter().map(|(name, _)| name.as_str()).collect::<Vec<_>>(), ["a", "b"]);
    let (_, page) = world.state.group_page(Some("b"), 5);
    assert_eq!(page.iter().map(|(name, _)| name.as_str()).collect::<Vec<_>>(), ["c", "d"]);
    assert!(world.state.group_page(Some("d"), 5).1.is_empty());
}

#[test]
fn resolving_groups_names_the_first_that_is_unknown() {
    let mut world = World::with(&["sake", "tea"]);
    assert!(world.create_group("drinks", "", set(&["sake"]), NameSet::new()).is_ok());
    assert!(world.create_group("hot", "", set(&["tea"]), NameSet::new()).is_ok());
    let both = vec!["hot".to_string(), "drinks".to_string()];
    assert_eq!(world.state.resolve_groups(&both).ok().unwrap().names(), ["sake", "tea"]);
    let unknown = vec!["hot".to_string(), "zeta".to_string(), "alpha".to_string()];
    assert_eq!(world.state.resolve_groups(&unknown).err().as_deref(), Some("zeta"));
}
