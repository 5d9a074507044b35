//! Creating, deleting and renaming contexts, against a disk held in memory.
use registry::engine::{FlushStep, WalReset};
use registry::family::{
    context_files, deletion_files, deletion_outcome, read_meta_file, sweep_outcome, sweep_stale_stem_files, FamilyMove,
    SidecarRead, StemSweep,
};
use registry::groups::GroupRecord;
use registry::lifecycle::{
    rename_context_locked, rollback_rename, undo_rename_veto, CreateError, DeleteError, Detachment,
    RenameContextError, RenameStage, RenameStart,
};
use registry::meta_ops::{PutSchemaError, PutSchemaStep};
use registry::names::{NameMap, NameSet};
use registry::paths::{
    deleted_marker_path, file_stem, group_path, image_path, import_marker_path, import_marker_paths, meta_path,
    name_from_stem, passages_wal_path, renaming_marker_path, resume_rename_markers, resumed_rename,
    retire_rename_marker, schema_path, sources_path, vectors_path, wal_path, RenameMarker,
};
use registry::residency::EvictStep;
use registry::state::{
    AppState, ChangeKind, ContextMeta, ContextStats, ContextUsage, Entry, GraphFacts, InstalledSchema, IoFault, MetaFile, Options,
    PerContextMetrics, Slot,
};
use registry::write_path::{AccessError, LoadedGraph};
use std::collections::{BTreeMap, BTreeSet};

/// A floor's rank.
fn rank(floor: f64) -> u64 {
    let bits = (floor + 0.0).to_bits();
    if bits >> 63 == 1 {
        !bits
    } else {
        bits ^ (1 << 63)
    }
}

/// The time, in seconds since the epoch.
const NOW: u64 = 1_000;

/// A graph is the set of its facts.
type Graph = BTreeSet<String>;

enum File {
    Image { graph: Graph, watermark: u64, corrupt: bool },
    Meta(MetaFile),
    Log(Vec<(u64, String)>),
    Marker { from: String, to: String },
    Group(GroupRecord),
    Bytes(String),
    /// Something that stands in the way and will not go.
    Obstacle,
}

fn injected() -> IoFault {
    IoFault { not_found: false, message: "injected".to_string() }
}

fn missing() -> IoFault {
    IoFault { not_found: true, message: "missing".to_string() }
}

/// The data directory. One operation may be told to fail; a write is two
/// operations, a removal and a move one each.
#[derive(Default)]
struct Disk {
    files: BTreeMap<String, File>,
    fail_after: Option<usize>,
    fired: bool,
}

impl Disk {
    fn fail_after(&mut self, ops: usize) {
        self.fail_after = Some(ops);
        self.fired = false;
    }

    /// Lifts the fault and says whether it never came.
    fn clear_fault(&mut self) -> bool {
        self.fail_after = None;
        !self.fired
    }

    fn op(&mut self) -> Result<(), IoFault> {
        match self.fail_after {
            Some(0) => {
                self.fail_after = None;
                self.fired = true;
                Err(injected())
            }
            Some(n) => {
                self.fail_after = Some(n - 1);
                Ok(())
            }
            None => Ok(()),
        }
    }

    fn has(&self, file: &str) -> bool {
        self.files.contains_key(file)
    }

    fn put(&mut self, file: String, content: File) {
        self.files.insert(file, content);
    }

    fn write(&mut self, file: String, content: File) -> Result<(), IoFault> {
        self.op()?;
        self.op()?;
        if matches!(self.files.get(&file), Some(File::Obstacle)) {
            return Err(injected());
        }
        self.files.insert(file, content);
        Ok(())
    }

    fn remove(&mut self, file: &str) -> Result<(), IoFault> {
        self.op()?;
        match self.files.get(file) {
            None => Err(missing()),
            Some(File::Obstacle) => Err(injected()),
            Some(_) => {
                self.files.remove(file);
                Ok(())
            }
        }
    }

    fn rename(&mut self, from: &str, to: &str) -> Result<(), IoFault> {
        self.op()?;
        if !self.has(from) {
            return Err(missing());
        }
        if matches!(self.files.get(to), Some(File::Obstacle)) {
            return Err(injected());
        }
        let content = self.files.remove(from).unwrap();
        self.files.insert(to.to_string(), content);
        Ok(())
    }

    fn listing(&self) -> Vec<String> {
        self.files.keys().cloned().collect()
    }

    fn markers(&self) -> Vec<(String, RenameMarker)> {
        let mut found = Vec::new();
        for (file, content) in &self.files {
            if let File::Marker { from, to } = content {
                found.push((file.clone(), RenameMarker { from: from.clone(), to: to.clone() }));
            }
        }
        found
    }

    fn sidecar(&self, stem: &str) -> MetaFile {
        let read = match self.files.get(&meta_path(stem)) {
            None => SidecarRead::Missing,
            Some(File::Meta(file)) => SidecarRead::Parsed(file.copy()),
            Some(_) => SidecarRead::Unreadable,
        };
        read_meta_file(read, 1_700_000_000)
    }

    fn move_family(&mut self, from: &str, to: &str) -> Result<(), IoFault> {
        let sources = context_files(from);
        let targets = context_files(to);
        let mut run = FamilyMove::start();
        while let Some(at) = run.next() {
            run.note(self.rename(&sources[at], &targets[at]));
        }
        run.finish(Ok(()))
    }

    fn delete_family(&mut self, name: &str, stem: &str) -> Result<(), IoFault> {
        let doomed = deletion_files(name, stem, &self.markers(), &self.listing());
        let mut outcomes = Vec::new();
        for file in &doomed {
            outcomes.push(self.remove(file));
        }
        deletion_outcome(&outcomes)
    }

    fn sweep(&mut self, name: &str, mode: StemSweep, own: Option<&str>) -> Result<(), IoFault> {
        let stale = sweep_stale_stem_files(name, &file_stem(name), mode, own, &self.markers(), &self.listing());
        let mut outcomes = Vec::new();
        for file in &stale {
            outcomes.push(self.remove(file));
            sweep_outcome(&outcomes)?;
        }
        Ok(())
    }
}

fn options() -> Options {
    Options {
        cache_bytes: u64::MAX,
        wal_enabled: true,
        wal_max_bytes: 0,
        per_context_metrics: PerContextMetrics::Off,
        load_retry: 30,
        max_group_members: 100,
        embed_passages: false,
        embedding_model: None,
        semantic_floor: 0,
    }
}

fn facts_of(graph: &Graph, applied_seq: u64) -> GraphFacts {
    GraphFacts {
        footprint: 100 * graph.len() as u64,
        stats: ContextStats { associations: graph.len() as u64, ..ContextStats::default() },
        applied_seq,
        dice_floor: None,
    }
}

fn set(names: &[&str]) -> NameSet {
    NameSet::of(&names.iter().map(|name| name.to_string()).collect())
}

struct World {
    state: AppState,
    disk: Disk,
    graphs: BTreeMap<String, Graph>,
}

impl World {
    fn boot(disk: Disk) -> World {
        let state = AppState::new(options(), NameMap::new(), None, 0, None);
        let mut world = World { state, disk, graphs: BTreeMap::new() };
        world.finish_deletions();
        let resumed = world.resume_renames();
        for file in world.disk.listing() {
            if let Some(stem) = file.strip_suffix(".ctx") {
                if matches!(world.disk.files[&file], File::Image { .. }) {
                    world.register(stem);
                }
            } else if let (Some(stem), File::Group(record)) = (file.strip_suffix(&group_path("")), &world.disk.files[&file]) {
                let record = record.copy();
                world.state.groups.insert(name_from_stem(stem).unwrap(), record);
            }
        }
        for (run, marker) in resumed {
            let persisted = run.landed && world.rewrite_membership(&run.from, &run.to);
            if retire_rename_marker(run.complete, run.landed, persisted) {
                let _ = world.disk.remove(&marker);
            }
        }
        world.reconcile_groups();
        for name in world.names() {
            if world.entry(&name).meta.pinned {
                let loaded = world.loaded(&name);
                let _ = world.state.ensure_hot(&name, loaded, NOW);
            }
        }
        world
    }

    fn new() -> World {
        World::boot(Disk::default())
    }

    fn reboot(self) -> World {
        World::boot(self.disk)
    }

    fn finish_deletions(&mut self) {
        for file in self.disk.listing() {
            if let Some(stem) = file.strip_suffix(".deleted") {
                let name = name_from_stem(stem).unwrap();
                if self.disk.delete_family(&name, stem).is_ok() {
                    let _ = self.disk.remove(&file);
                }
            }
        }
    }

    fn resume_renames(&mut self) -> Vec<(registry::paths::ResumedRename, String)> {
        let found = self.disk.markers().into_iter().map(|(_, marker)| marker).collect();
        let mut resumed = Vec::new();
        for marker in resume_rename_markers(&found) {
            let (from, to) = (file_stem(&marker.from), file_stem(&marker.to));
            let moved = self.disk.move_family(&from, &to).is_ok();
            let landed = matches!(self.disk.files.get(&image_path(&to)), Some(File::Image { .. }));
            resumed.push((resumed_rename(marker, moved, landed), renaming_marker_path(&from)));
        }
        resumed
    }

    fn register(&mut self, stem: &str) {
        let file = self.disk.sidecar(stem);
        self.state.register_scanned(stem, file, 0, 0);
    }

    fn reconcile_groups(&mut self) {
        let touched = self.state.reconcile_groups();
        self.persist_groups(&touched);
    }

    fn persist_groups(&mut self, touched: &[String]) -> bool {
        let mut all = true;
        for name in touched {
            let record = self.state.group(name).unwrap();
            all &= self.disk.write(group_path(&file_stem(name)), File::Group(record)).is_ok();
        }
        all
    }

    fn rewrite_membership(&mut self, from: &str, to: &str) -> bool {
        let touched = self.state.rename_in_membership(from, to);
        self.persist_groups(&touched)
    }

    fn names(&self) -> Vec<String> {
        (0..self.state.registry.len()).map(|at| self.state.registry.key_at(at).clone()).collect()
    }

    fn entry(&self, name: &str) -> &Entry {
        self.state.registry.get(name).unwrap()
    }

    fn has(&self, name: &str) -> bool {
        self.state.registry.get(name).is_some()
    }

    fn is_loaded(&self, name: &str) -> bool {
        matches!(self.entry(name).slot, Slot::Hot(_))
    }

    fn members(&self, group: &str) -> Vec<String> {
        self.state.group(group).unwrap().contexts.names()
    }

    fn create_with(&mut self, name: &str, meta: ContextMeta) -> Result<(), CreateError> {
        self.state.create(name)?;
        let created = self.create_files(name, &meta);
        let outcome = self.state.settle_created(name, meta, created);
        if outcome.is_ok() {
            self.graphs.insert(name.to_string(), Graph::new());
        }
        outcome
    }

    fn create_files(&mut self, name: &str, meta: &ContextMeta) -> Result<(ContextStats, u64), IoFault> {
        self.disk.sweep(name, StemSweep::FreshCreate, None)?;
        let stem = file_stem(name);
        let facts = facts_of(&Graph::new(), 0);
        let file = MetaFile { meta: meta.copy(), ..MetaFile::default() };
        self.disk.write(meta_path(&stem), File::Meta(file))?;
        self.disk.write(image_path(&stem), File::Image { graph: Graph::new(), watermark: 0, corrupt: false })?;
        Ok((facts.stats, facts.footprint))
    }

    fn create(&mut self, name: &str) -> Result<(), CreateError> {
        self.create_with(name, ContextMeta::default())
    }

    fn create_group(&mut self, name: &str, contexts: &[&str]) {
        let draft = self.state.create_group(name, String::new(), set(contexts), NameSet::new());
        let Ok(draft) = draft else { panic!("refused") };
        assert!(self.state.admit_group(draft, Ok(())).is_ok());
        assert!(self.persist_groups(&[name.to_string()]));
        assert!(self.state.settle_created_group(name, Ok(())).is_ok());
    }

    fn load(&mut self, name: &str) -> Result<LoadedGraph, String> {
        let stem = file_stem(name);
        let (mut graph, watermark) = match self.disk.files.get(&image_path(&stem)) {
            Some(File::Image { graph, watermark, corrupt: false }) => (graph.clone(), *watermark),
            _ => return Err("unsupported version".to_string()),
        };
        let mut last = watermark;
        if let Some(File::Log(records)) = self.disk.files.get(&wal_path(&stem)) {
            for (seq, fact) in records {
                if *seq > watermark {
                    graph.insert(fact.clone());
                }
                last = last.max(*seq);
            }
        }
        let schema = match self.disk.files.get(&schema_path(&stem)) {
            Some(File::Bytes(document)) if self.entry(name).schema_digest.is_some() => Some(installed(document)),
            _ => None,
        };
        let facts = facts_of(&graph, watermark);
        self.graphs.insert(name.to_string(), graph);
        Ok(LoadedGraph { facts, wal_seq: last + 1, wal_bytes: 0, graph_revision: 0, schema })
    }

    fn loaded(&mut self, name: &str) -> Result<LoadedGraph, String> {
        if self.state.needs_load(name, NOW) {
            self.load(name)
        } else {
            Err("resident".to_string())
        }
    }

    fn write(&mut self, name: &str, fact: &str) -> Result<(), AccessError> {
        let loaded = self.loaded(name);
        let ticket = self.state.logged_write(name, 1, true, loaded, NOW)?;
        let path = wal_path(&file_stem(name));
        let mut records = match self.disk.files.remove(&path) {
            Some(File::Log(records)) => records,
            _ => Vec::new(),
        };
        records.push((ticket.first_seq, fact.to_string()));
        self.disk.put(path, File::Log(records));
        self.state.log_appended(&ticket, Ok(10))?;
        let graph = self.graphs.get_mut(name).unwrap();
        graph.insert(fact.to_string());
        let facts = facts_of(graph, 0);
        self.state.write_applied(&ticket, 1, facts);
        Ok(())
    }

    fn count(&mut self, name: &str) -> usize {
        let loaded = self.loaded(name);
        assert!(self.state.ensure_hot(name, loaded, NOW).is_ok());
        self.graphs[name].len()
    }

    /// Flushes what is dirty and gives the names that were saved.
    fn flush_dirty(&mut self) -> Vec<String> {
        let mut saved = Vec::new();
        for handle in self.state.flush_dirty() {
            let Some(ticket) = self.state.flush_entry(&handle.name, handle.serial) else { continue };
            let FlushStep::Publish(file) = self.state.flush_staged(&ticket, true) else { continue };
            let stem = file_stem(&handle.name);
            let graph = self.graphs[&handle.name].clone();
            self.disk.put(meta_path(&stem), File::Meta(file));
            self.disk.put(image_path(&stem), File::Image { graph, watermark: ticket.watermark, corrupt: false });
            let done = self.state.flush_published(&ticket, true, NOW);
            if done.truncate {
                self.disk.files.remove(&wal_path(&stem));
                self.state.truncate_wal(&handle.name, handle.serial, WalReset::Done);
            }
            saved.push(handle.name);
        }
        saved
    }

    fn evict(&mut self, name: &str) -> bool {
        let serial = self.entry(name).serial;
        self.flush_dirty();
        matches!(self.state.evict_entry(name, serial), EvictStep::Cooled)
    }

    fn delete(&mut self, name: &str) -> Option<Result<(), DeleteError>> {
        if let Err(refused) = self.state.delete(name)? {
            return Some(Err(refused));
        }
        let stem = file_stem(name);
        let marker = deleted_marker_path(&stem);
        let _ = self.disk.write(marker.clone(), File::Bytes(String::new()));
        let touched = self.state.sweep_context_from_groups(name);
        self.persist_groups(&touched);
        let removed = self.disk.delete_family(name, &stem);
        if removed.is_ok() {
            let _ = self.disk.remove(&marker);
        }
        Some(self.state.settle_deleted(name, removed))
    }

    fn rename(&mut self, from: &str, to: &str) -> Result<(), RenameContextError> {
        if let RenameStart::Nothing = self.state.rename_context(from, to)? {
            return Ok(());
        }
        let (from_stem, to_stem) = (file_stem(from), file_stem(to));
        let marker = renaming_marker_path(&from_stem);
        let mut usage = None;
        let mut stage = RenameStage::Hydrate;
        loop {
            let outcome = match &stage {
                RenameStage::Hydrate => Ok(()),
                RenameStage::Mark => {
                    self.disk.write(marker.clone(), File::Marker { from: from.to_string(), to: to.to_string() })
                }
                RenameStage::Sweep => self.disk.sweep(to, StemSweep::RenameDestination, Some(&marker)),
                RenameStage::Drain => {
                    self.drain(from, &from_stem).map(|counted| {
                        usage = Some(counted);
                        self.graphs.remove(from);
                    })
                }
                RenameStage::Move => self.disk.move_family(&from_stem, &to_stem),
                RenameStage::Register => {
                    let file = self.disk.sidecar(&to_stem);
                    let pinned = self.state.rename_attach(to, file, usage.take().unwrap(), 0, 0);
                    if pinned {
                        let loaded = self.loaded(to);
                        let _ = self.state.ensure_hot(to, loaded, NOW);
                    }
                    if retire_rename_marker(true, true, self.rewrite_membership(from, to)) {
                        let _ = self.disk.remove(&marker);
                    }
                    Ok(())
                }
                RenameStage::Retract(_) => self.disk.remove(&marker),
                RenameStage::Done | RenameStage::RolledBack(_) | RenameStage::Stuck(_) => break,
            };
            stage = rename_context_locked(stage, outcome);
        }
        assert_eq!(undo_rename_veto(&stage), matches!(stage, RenameStage::RolledBack(_)));
        self.state.settle_renamed(from, to, stage)
    }

    fn drain(&mut self, from: &str, stem: &str) -> Result<ContextUsage, IoFault> {
        let mut ticket = self.state.drain_entry_for_rename(from).expect("it is registered");
        if let Some(file) = &mut ticket.sidecar {
            let Slot::Hot(facts) = self.entry(from).slot else { unreachable!("it was hot") };
            let graph = self.graphs[from].clone();
            self.disk.write(meta_path(stem), File::Meta(std::mem::take(file)))?;
            self.disk.write(image_path(stem), File::Image { graph, watermark: facts.applied_seq, corrupt: false })?;
        }
        match self.state.rename_detach(&ticket) {
            Detachment::Detached(usage) => Ok(usage),
            _ => panic!("nothing came in between"),
        }
    }

    fn corrupt_image(&mut self, name: &str) {
        match self.disk.files.get_mut(&image_path(&file_stem(name))) {
            Some(File::Image { corrupt, .. }) => *corrupt = true,
            _ => panic!("no image"),
        }
    }

    fn update_meta(
        &mut self,
        name: &str,
        description: Option<&str>,
        pinned: Option<bool>,
        dice_floor: Option<f64>,
        semantic_floor: Option<f64>,
    ) -> Option<Result<ContextMeta, String>> {
        let loaded = self.loaded(name);
        let ticket = self.state.update_meta(
            name,
            description.map(|text| text.to_string()),
            pinned,
            dice_floor.map(rank),
            semantic_floor.map(rank),
            loaded,
            NOW,
        )?;
        let ticket = match ticket {
            Ok(ticket) => ticket,
            Err(message) => return Some(Err(message)),
        };
        let written = self.disk.write(meta_path(&file_stem(name)), File::Meta(ticket.sidecar.copy()));
        Some(self.state.settle_updated_meta(ticket, written).map_err(|fault| fault.message))
    }

    fn put_schema(&mut self, name: &str, document: &str) -> Option<Result<InstalledSchema, PutSchemaError>> {
        self.put_schema_over(name, document, &NameMap::new())
    }

    fn put_schema_over(
        &mut self,
        name: &str,
        document: &str,
        aliases: &NameMap<String>,
    ) -> Option<Result<InstalledSchema, PutSchemaError>> {
        let loaded = self.loaded(name);
        let step = self.state.put_schema(name, installed(document), Ok(digest(document)), aliases, loaded, NOW)?;
        let ticket = match step {
            Ok(PutSchemaStep::Unchanged(standing)) => return Some(Ok(standing)),
            Ok(PutSchemaStep::Write(ticket)) => ticket,
            Err(error) => return Some(Err(error)),
        };
        let stem = file_stem(name);
        let sidecar = self.disk.write(meta_path(&stem), File::Meta(ticket.sidecar.copy()));
        if let Err(error) = self.state.schema_sidecar_written(&ticket, sidecar) {
            return Some(Err(error));
        }
        let written = self.disk.write(schema_path(&stem), File::Bytes(document.to_string()));
        match self.state.schema_written(ticket, written) {
            Ok((standing, change)) => {
                assert!(matches!(change, Some(ChangeKind::SchemaUpdated { mode }) if mode == standing.mode));
                Some(Ok(standing))
            }
            Err((error, back)) => {
                if let Some(file) = back {
                    let _ = self.disk.write(meta_path(&stem), File::Meta(file));
                }
                Some(Err(error))
            }
        }
    }

    fn schema_of(&mut self, name: &str) -> Option<Result<Option<InstalledSchema>, String>> {
        let loaded = self.loaded(name);
        self.state.schema_of(name, loaded, NOW)
    }

    fn mark_rename(&mut self, from: &str, to: &str) {
        self.disk.put(
            renaming_marker_path(&file_stem(from)),
            File::Marker { from: from.to_string(), to: to.to_string() },
        );
    }

    fn has_marker(&self, name: &str) -> bool {
        self.disk.has(&renaming_marker_path(&file_stem(name)))
    }
}

const DOCUMENT: &str = "{\"schema\":1,\"mode\":\"strict\",\"types\":{\"Brewery\":{}}}";

fn installed(document: &str) -> InstalledSchema {
    InstalledSchema { document: document.to_string(), mode: "strict".to_string() }
}

fn digest(document: &str) -> String {
    format!("digest of {document}")
}

#[test]
fn an_empty_context_name_is_refused_by_create() {
    let mut world = World::new();
    assert!(matches!(world.create(""), Err(CreateError::InvalidName)));
}

#[test]
fn every_context_delete_persistence_failure_recovers_at_boot() {
    let mut exhausted = false;
    for failure in 0..64 {
        let mut world = World::new();
        assert!(world.create("sake").is_ok());
        assert!(world.write("sake", "蔵 杜氏 高瀬").is_ok());
        world.flush_dirty();
        world.create_group("breweries", &["sake"]);

        world.disk.fail_after(failure);
        let outcome = world.delete("sake").unwrap();
        let past_end = world.disk.clear_fault();

        let world = world.reboot();
        assert!(!world.has("sake"), "failure at persistence step {failure} resurrected the context");
        assert!(world.members("breweries").is_empty(), "boot did not reconcile group membership at step {failure}");
        assert!(!world.disk.has(&deleted_marker_path("sake")), "boot did not finish the marker at step {failure}");
        if past_end {
            assert!(outcome.is_ok());
            exhausted = true;
            break;
        }
    }
    assert!(exhausted, "context deletion exceeded the sweep bound");
}

#[test]
fn recreating_a_context_clears_a_stale_deletion_marker() {
    let mut world = World::new();
    assert!(world.create("sake").is_ok());
    assert!(world.delete("sake").unwrap().is_ok());
    world.disk.put(deleted_marker_path("sake"), File::Bytes(String::new()));
    assert!(world.create("sake").is_ok());
    assert!(world.write("sake", "蔵 杜氏 高瀬").is_ok());
    world.flush_dirty();
    assert!(!world.disk.has("sake.deleted"), "recreate must clear the stale marker");
    let mut world = world.reboot();
    assert!(world.has("sake"), "the recreated context must survive the restart");
    assert_eq!(world.count("sake"), 1, "its data must be intact");
}

#[test]
fn creating_a_context_clears_stale_import_markers() {
    let mut world = World::new();
    assert!(world.create("sake").is_ok());
    assert!(world.delete("sake").unwrap().is_ok());
    world.disk.put(import_marker_path("sake", "doc-1"), File::Bytes(String::new()));
    assert_eq!(import_marker_paths("sake", &world.disk.listing()).len(), 1);
    assert!(world.create("sake").is_ok());
    assert!(
        import_marker_paths("sake", &world.disk.listing()).is_empty(),
        "create clears the earlier generation's markers"
    );
}

#[test]
fn create_does_not_inherit_files_left_by_an_earlier_generation() {
    let stem = file_stem("sake");
    let mut disk = Disk::default();
    disk.put(wal_path(&stem), File::Log(vec![(1, "幽霊 正体 枯れ尾花".to_string())]));
    disk.put(sources_path(&stem), File::Bytes("{\"ghost\":\"old passage\"}".to_string()));
    disk.put(vectors_path(&stem), File::Bytes("stale".to_string()));
    disk.put(passages_wal_path(&stem), File::Bytes("前世代の本文".to_string()));

    let mut world = World::boot(disk);
    assert_eq!(world.state.context_count(), 0, "no image, nothing registers");
    assert!(world.create("sake").is_ok());
    assert!(!world.disk.has(&sources_path(&stem)), "stale passages survived the create");
    assert!(!world.disk.has(&passages_wal_path(&stem)), "the old generation's passage log survived the create");
    assert!(!world.disk.has(&vectors_path(&stem)), "stale vectors survived the create");

    let mut world = world.reboot();
    assert_eq!(world.count("sake"), 0, "the old generation's WAL replayed into the new context");
}

#[test]
fn a_failed_persist_does_not_leave_the_failed_change_in_memory() {
    let mut world = World::new();
    assert!(world.create("sake").is_ok());
    let meta = world.update_meta("sake", Some("A"), None, None, None).unwrap();
    assert_eq!(meta.ok().unwrap().description, "A");

    world.disk.fail_after(0);
    let failed = world.update_meta("sake", Some("B"), None, None, None).unwrap();
    assert!(failed.is_err(), "a persist failure must surface as Err");
    world.disk.clear_fault();

    let meta = world.update_meta("sake", None, Some(true), None, None).unwrap();
    assert_eq!(
        meta.ok().unwrap().description,
        "A",
        "the failed update to \"B\" must not have survived in memory"
    );
}

#[test]
fn every_latecomer_behind_a_delete_finds_the_tombstone() {
    let mut world = World::new();
    assert!(world.create("victim").is_ok());
    let stale = world.entry("victim").serial;
    assert!(world.state.is_live("victim", stale));
    assert!(world.delete("victim").unwrap().is_ok());
    assert!(!world.state.is_live("victim", stale), "the tombstone must refuse a stale handle");
    assert!(matches!(world.write("victim", "幽霊 は 残らない"), Err(AccessError::NotFound)));
    assert!(!world.disk.has(&wal_path(&file_stem("victim"))));
    assert!(world.create("victim").is_ok());
    assert!(!world.state.is_live("victim", stale), "a new generation is no home for an old handle");
}

#[test]
fn a_failed_create_releases_the_name() {
    let mut world = World::new();
    let obstruction = wal_path(&file_stem("sake"));
    world.disk.put(obstruction.clone(), File::Obstacle);
    assert!(matches!(world.create("sake"), Err(CreateError::Io(_))));
    world.disk.files.remove(&obstruction);
    assert!(world.create("sake").is_ok());
}

#[test]
fn a_create_racing_a_slow_delete_is_refused_not_interleaved() {
    let mut world = World::new();
    assert!(world.create("sake").is_ok());
    assert!(world.state.delete("sake").unwrap().is_ok());
    assert!(
        matches!(world.create("sake"), Err(CreateError::AlreadyExists)),
        "a mid-delete name must read as taken"
    );
    let removed = world.disk.delete_family("sake", &file_stem("sake"));
    assert!(world.state.settle_deleted("sake", removed).is_ok());
    assert!(world.create("sake").is_ok());
    assert!(world.disk.has(&image_path(&file_stem("sake"))));
}

#[test]
fn dice_floor_persists_in_the_sidecar_and_reapplies_on_load() {
    let floor_of = |world: &World| match world.entry("sake").slot {
        Slot::Hot(facts) => facts.dice_floor,
        Slot::Cold => None,
    };
    let mut world = World::new();
    assert!(world.create("sake").is_ok());
    assert!(world.write("sake", "青嶺酒造 分類 酒蔵").is_ok());
    assert_eq!(floor_of(&world), None, "the default floor stands");
    assert!(world.update_meta("sake", None, None, Some(0.25), None).unwrap().is_ok());
    assert_eq!(floor_of(&world), Some(rank(0.25)), "the loaded graph picks the floor up");
    assert_eq!(world.flush_dirty(), vec!["sake".to_string()]);
    assert!(world.flush_dirty().is_empty());

    let mut world = world.reboot();
    world.count("sake");
    assert_eq!(floor_of(&world), Some(rank(0.25)), "floor must survive the restart");
    assert_eq!(world.entry("sake").meta.dice_floor, Some(rank(0.25)));
}

#[test]
fn update_meta_clamps_out_of_range_floors_into_zero_to_one() {
    let mut world = World::new();
    assert!(world.create("sake").is_ok());
    assert!(world.update_meta("sake", None, None, Some(2.5), Some(-1.0)).unwrap().is_ok());
    let meta = &world.entry("sake").meta;
    assert_eq!(meta.dice_floor, Some(rank(1.0)), "an over-range dice_floor must clamp to the ceiling");
    assert_eq!(meta.semantic_floor, Some(rank(0.0)), "an under-range semantic_floor must clamp to the floor");
}

#[test]
fn update_meta_rolls_back_pinning_when_the_forced_preload_fails() {
    let mut world = World::new();
    assert!(world.create("sake").is_ok());
    assert!(world.write("sake", "蔵 杜氏 高瀬").is_ok());
    world.flush_dirty();
    assert!(world.evict("sake"), "sanity: an unpinned context must evict cleanly");
    world.corrupt_image("sake");

    let error = world.update_meta("sake", None, Some(true), None, None).unwrap().err().unwrap();
    assert!(!error.is_empty());
    assert!(
        !world.entry("sake").meta.pinned,
        "a failed forced preload must roll `pinned` back to false, not strand the context pinned yet cold"
    );
    assert!(!world.is_loaded("sake"), "it must stay cold, not half-applied");
}

fn pinned() -> ContextMeta {
    ContextMeta { pinned: true, ..ContextMeta::default() }
}

#[test]
fn rename_context_moves_the_family_and_rewrites_group_membership() {
    let mut world = World::new();
    assert!(world.create_with("sake", pinned()).is_ok());
    assert!(world.write("sake", "蔵 杜氏 高瀬").is_ok());
    world.create_group("drinks", &["sake"]);

    assert!(world.rename("sake", "shochu").is_ok());
    assert!(!world.has("sake"), "the old name must be gone");
    assert!(world.entry("shochu").meta.pinned, "pinned carries over");
    assert!(world.is_loaded("shochu"), "a pinned context reloads hot under its new name");
    assert!(!world.disk.has("sake.ctx"));
    assert!(world.disk.has("shochu.ctx"));
    assert_eq!(world.members("drinks"), ["shochu"], "group membership follows the rename, not a stale name");
    assert!(!world.has_marker("sake"));
    assert_eq!(world.count("shochu"), 1, "data must survive the move");

    let world = world.reboot();
    assert!(!world.has("sake"));
    assert!(world.has("shochu"));
    assert_eq!(world.members("drinks"), ["shochu"]);
}

#[test]
fn a_pinned_context_s_rename_survives_a_re_preload_failure_and_stays_cold() {
    let mut world = World::new();
    assert!(world.create_with("sake", pinned()).is_ok());
    assert!(world.write("sake", "蔵 杜氏 高瀬").is_ok());
    world.flush_dirty();
    world.corrupt_image("sake");

    let mut world = world.reboot();
    assert!(!world.is_loaded("sake"), "sanity: the corrupt pinned image must fail to preload at boot");
    assert!(
        world.rename("sake", "shochu").is_ok(),
        "the rename itself must still succeed despite the re-preload failure"
    );
    assert!(!world.has("sake"));
    assert!(world.entry("shochu").meta.pinned, "pinned carries over even though it stays cold");
    assert!(!world.is_loaded("shochu"), "a pinned context whose re-preload fails must stay cold");
    assert!(!world.disk.has("sake.ctx"));
    assert!(world.disk.has("shochu.ctx"));
}

#[test]
fn rename_context_moves_the_schema_file_and_its_recorded_digest_too() {
    let document = "{\"schema\":1,\"mode\":\"off\",\"closed_labels\":false,\"types\":{},\"relations\":{}}";
    let mut world = World::new();
    assert!(world.create("sake").is_ok());
    world.flush_dirty();
    world.disk.put(schema_path("sake"), File::Bytes(document.to_string()));
    let mut file = world.disk.sidecar("sake");
    file.schema_digest = Some(digest(document));
    world.disk.put(meta_path("sake"), File::Meta(file));

    let mut world = world.reboot();
    assert!(world.rename("sake", "shochu").is_ok());
    assert!(!world.disk.has(&schema_path("sake")), "the old stem's schema file must move, not stay behind");
    assert!(matches!(&world.disk.files[&schema_path("shochu")], File::Bytes(bytes) if bytes == document));
    assert_eq!(world.entry("shochu").schema_digest, Some(digest(document)));

    let world = world.reboot();
    assert!(world.has("shochu"));
}

#[test]
fn delete_removes_the_schema_file_with_the_rest_of_the_family() {
    let mut world = World::new();
    assert!(world.create("sake").is_ok());
    world.flush_dirty();
    world.disk.put(schema_path("sake"), File::Bytes("irrelevant to this test".to_string()));
    assert!(world.delete("sake").unwrap().is_ok());
    assert!(!world.disk.has(&schema_path("sake")));
}

#[test]
fn rename_carries_usage_counted_while_the_context_was_cold() {
    let mut world = World::new();
    assert!(world.create("sake").is_ok());
    world.state.note_read("sake", false, 1);
    world.state.note_write("sake", 1);
    assert!(world.evict("sake"));
    world.state.note_read("sake", false, 2);
    world.state.note_read("sake", true, 2);
    world.state.note_write("sake", 2);

    assert!(world.rename("sake", "sake2").is_ok());
    let usage = world.entry("sake2").usage;
    assert_eq!(
        (usage.reads, usage.empty_reads, usage.writes),
        (3, 1, 2),
        "usage counted while the context sat Cold must survive the rename"
    );
    assert_eq!((usage.last_read_epoch, usage.last_write_epoch), (2, 2));
}

#[test]
fn a_rename_stuck_past_the_point_of_no_return_refuses_a_recreate_and_survives_reboot() {
    let mut world = World::new();
    assert!(world.create("sake").is_ok());
    assert!(world.write("sake", "蔵 杜氏 高瀬").is_ok());
    let blocker = image_path(&file_stem("shochu"));
    world.disk.put(blocker.clone(), File::Obstacle);

    assert!(matches!(world.rename("sake", "shochu"), Err(RenameContextError::Io(_))), "the pivot move must fail");
    assert!(!world.has("sake"), "memory already forgot the source name past the point of no return");
    assert!(!world.has("shochu"), "the destination never landed");
    assert!(world.has_marker("sake"), "the marker must survive so boot can resume the move");
    assert!(world.disk.has("sake.ctx"), "the old generation's files must stay put, untouched");

    assert!(matches!(world.create("sake"), Err(CreateError::AlreadyExists)), "a stuck rename must keep blocking create");
    assert!(world.has_marker("sake"), "the refused create must not have touched the marker");
    assert!(world.disk.has("sake.ctx"), "the refused create must not have touched the old data");
    assert!(
        matches!(world.create("shochu"), Err(CreateError::AlreadyExists)),
        "a stuck rename must keep blocking create on BOTH names, not just the source"
    );
    assert!(world.has_marker("sake"));
    assert!(world.disk.has("sake.ctx"));

    world.disk.files.remove(&blocker);
    let mut world = world.reboot();
    assert!(!world.has("sake"));
    assert_eq!(world.count("shochu"), 1, "the resumed move must carry the old data over");
    assert!(!world.has_marker("sake"));
}

#[test]
fn an_unfinished_context_rename_is_resumed_at_boot_before_group_reconciliation() {
    let mut world = World::new();
    assert!(world.create("sake").is_ok());
    world.create_group("drinks", &["sake"]);
    world.mark_rename("sake", "shochu");

    let world = world.reboot();
    assert!(!world.has("sake"));
    assert!(world.has("shochu"));
    assert!(!world.disk.has("sake.ctx"));
    assert!(world.disk.has("shochu.ctx"));
    assert_eq!(
        world.members("drinks"),
        ["shochu"],
        "the membership must be REWRITTEN to the new name, not pruned as dangling"
    );
    assert!(!world.has_marker("sake"));
}

#[test]
fn a_resumed_renames_membership_rewrite_that_cannot_persist_keeps_the_marker() {
    let mut world = World::new();
    assert!(world.create("sake").is_ok());
    world.create_group("drinks", &["sake"]);
    world.mark_rename("sake", "shochu");

    world.disk.fail_after(context_files(&file_stem("sake")).len());
    let mut world = world.reboot();
    assert!(!world.disk.clear_fault(), "the group write itself must be what failed");
    assert!(world.has("shochu"), "the move must still land even though the membership rewrite failed");
    assert!(world.has_marker("sake"), "a boot-time membership rewrite failure must keep the marker");

    let world = world.reboot();
    assert_eq!(world.members("drinks"), ["shochu"], "the retried resume must finish what the first boot could not");
    assert!(!world.has_marker("sake"));
}

#[test]
fn creating_a_context_abandons_a_rename_marker_at_its_own_stem() {
    let mut world = World::new();
    world.mark_rename("sake", "shochu");
    assert!(world.create("sake").is_ok());
    assert!(!world.has_marker("sake"), "create must clear a rename marker sitting at its own stem");

    let world = world.reboot();
    assert!(world.has("sake"), "the freshly created context must survive, not be swept to the rename's destination");
    assert!(!world.has("shochu"));
    assert!(world.disk.has("sake.ctx"));
    assert!(!world.disk.has("shochu.ctx"));
}

#[test]
fn creating_a_context_abandons_a_rename_marker_naming_it_as_destination() {
    let mut world = World::new();
    assert!(world.create("beer").is_ok());
    world.mark_rename("beer", "sake");
    assert!(world.create("sake").is_ok());
    assert!(!world.has_marker("beer"), "create must clear a rename marker that names it as the destination");

    let world = world.reboot();
    assert!(world.has("beer"), "the abandoned rename must leave the untouched source context intact");
    assert!(world.has("sake"), "the freshly created destination context must survive");
    assert!(world.disk.has("beer.ctx"));
    assert!(world.disk.has("sake.ctx"));
}

#[test]
fn a_boot_resume_whose_pivot_lands_but_a_sidecar_sticks_still_rewrites_membership() {
    let mut world = World::new();
    assert!(world.create("sake").is_ok());
    assert!(world.write("sake", "蔵 杜氏 高瀬").is_ok());
    world.create_group("drinks", &["sake"]);
    world.disk.put(wal_path(&file_stem("shochu")), File::Obstacle);
    world.mark_rename("sake", "shochu");

    let world = world.reboot();
    assert!(world.disk.has("shochu.ctx"), "sanity: the pivot must have landed");
    assert!(world.disk.has("sake.wal.jsonl"), "sanity: the blocked sidecar must still sit at the old stem");
    assert_eq!(
        world.members("drinks"),
        ["shochu"],
        "membership must follow the pivot's new name even though the move as a whole is incomplete"
    );
    assert!(world.has_marker("sake"), "only `complete`, not `landed`, retires the marker");
}

#[test]
fn delete_clears_a_stuck_rename_marker_at_its_own_stem() {
    let mut world = World::new();
    assert!(world.create("sake").is_ok());
    world.disk.put(image_path(&file_stem("shochu")), File::Obstacle);
    assert!(matches!(world.rename("sake", "shochu"), Err(RenameContextError::Io(_))));
    assert!(world.has_marker("sake"));

    let mut world = world.reboot();
    assert!(world.has("sake"));
    assert!(world.has_marker("sake"));
    assert!(world.delete("sake").unwrap().is_ok());
    assert!(!world.has_marker("sake"), "delete must clear a stuck rename marker sitting at its own stem");
}

#[test]
fn delete_clears_a_rename_marker_naming_it_as_destination() {
    let mut world = World::new();
    assert!(world.create("beer").is_ok());
    assert!(world.create("sake").is_ok());
    world.mark_rename("beer", "sake");
    assert!(world.delete("sake").unwrap().is_ok());
    assert!(!world.has_marker("beer"), "delete must clear a rename marker naming it as the destination");
    assert!(world.has("beer"), "the untouched, unrelated source context must survive");
}

#[test]
fn a_rename_whose_membership_rewrite_cannot_persist_keeps_its_marker() {
    let mut exhausted = false;
    for failure in 0..64 {
        let mut world = World::new();
        assert!(world.create("sake").is_ok());
        world.create_group("drinks", &["sake"]);

        world.disk.fail_after(failure);
        let outcome = world.rename("sake", "shochu");
        let past_end = world.disk.clear_fault();

        let world = world.reboot();
        match (world.has("sake"), world.has("shochu")) {
            (true, false) => assert_eq!(
                world.members("drinks"),
                ["sake"],
                "failure at persistence step {failure}: the rename never landed, so membership must be untouched"
            ),
            (false, true) => assert_eq!(
                world.members("drinks"),
                ["shochu"],
                "failure at persistence step {failure}: the rename landed, so membership must have followed"
            ),
            other => panic!("failure at persistence step {failure}: exactly one name must stand, not {other:?}"),
        }
        if past_end {
            assert!(outcome.is_ok());
            exhausted = true;
            break;
        }
    }
    assert!(exhausted, "context rename exceeded the sweep bound");
}

#[test]
fn rename_context_error_cases() {
    let mut world = World::new();
    assert!(world.create("sake").is_ok());
    assert!(world.create("beer").is_ok());
    assert!(matches!(world.rename("missing", "whatever"), Err(RenameContextError::NotFound)));
    assert!(matches!(world.rename("sake", "beer"), Err(RenameContextError::AlreadyExists)));
    assert!(matches!(world.rename("sake", ""), Err(RenameContextError::InvalidName)));
    assert!(world.rename("sake", "sake").is_ok(), "renaming a name to itself is a no-op, not an error");
    assert!(world.has("sake"));
    assert!(matches!(world.rename("missing", "missing"), Err(RenameContextError::NotFound)));
}

#[test]
fn a_create_racing_a_pending_context_rename_is_refused_for_both_names() {
    let mut world = World::new();
    assert!(world.create("sake").is_ok());
    assert!(matches!(world.state.rename_context("sake", "shochu"), Ok(RenameStart::Begin { .. })));
    assert!(
        matches!(world.create("sake"), Err(CreateError::AlreadyExists)),
        "the source name is reserved until the rename settles"
    );
    assert!(
        matches!(world.create("shochu"), Err(CreateError::AlreadyExists)),
        "the destination name is reserved too, before any file lands there"
    );
    assert!(world.state.settle_renamed("sake", "shochu", RenameStage::RolledBack(injected())).is_err());
    assert!(world.rename("sake", "shochu").is_ok());
    assert!(world.has("shochu"));
    assert!(!world.state.pending.renames.contains("sake"));
    assert!(!world.state.pending.renames.contains("shochu"));
}

#[test]
fn a_write_racing_a_rename_backs_off_at_the_tombstone() {
    let mut world = World::new();
    assert!(world.create("sake").is_ok());
    let stale = world.entry("sake").serial;
    assert!(world.rename("sake", "shochu").is_ok());
    assert!(!world.state.is_live("sake", stale), "a handle from before the rename must see the tombstone");
    assert!(
        matches!(world.write("sake", "蔵 杜氏 高瀬"), Err(AccessError::NotFound)),
        "the old name is gone; nothing may recreate it via a write"
    );
}

#[test]
fn put_schema_bumps_config_revision_persists_the_digest_and_mints_a_fresh_cache_identity() {
    let mut world = World::new();
    assert!(world.create("sake").is_ok());
    let before_revision = world.entry("sake").config_revision;
    let before_identity = world.entry("sake").cache_identity;

    let document = world.put_schema("sake", DOCUMENT).unwrap().ok().unwrap();
    assert_eq!(document.mode, "strict");
    let entry = world.entry("sake");
    assert_eq!(entry.config_revision, before_revision + 1);
    assert_eq!(entry.schema.as_ref().unwrap().mode, "strict");
    assert_ne!(before_identity, entry.cache_identity, "a schema PUT must re-mint cache_identity");

    let sidecar = world.disk.sidecar(&file_stem("sake"));
    let File::Bytes(bytes) = &world.disk.files[&schema_path(&file_stem("sake"))] else { panic!("no schema") };
    assert_eq!(sidecar.schema_digest, Some(digest(bytes)), "the recorded digest must match the bytes actually on disk");
    assert_eq!(sidecar.revision.config, before_revision + 1);
}

#[test]
fn a_repeated_put_of_the_same_document_bumps_nothing() {
    let mut world = World::new();
    assert!(world.create("sake").is_ok());
    assert!(world.put_schema("sake", DOCUMENT).unwrap().is_ok());
    let revision = world.entry("sake").config_revision;
    let identity = world.entry("sake").cache_identity;
    assert!(world.put_schema("sake", DOCUMENT).unwrap().is_ok());
    assert_eq!(world.entry("sake").config_revision, revision, "identical content must not bump the revision");
    assert_eq!(world.entry("sake").cache_identity, identity, "identical content must not re-mint cache_identity");
}

#[test]
fn put_schema_refuses_when_a_persisted_label_alias_resolves_to_the_reserved_type_label() {
    let mut world = World::new();
    assert!(world.create("sake").is_ok());
    assert!(world.write("sake", "蔵 schema:type Brewery").is_ok());
    let mut aliases = NameMap::new();
    aliases.insert("種別".to_string(), "schema:type".to_string());
    aliases.insert("杜氏長".to_string(), "杜氏".to_string());

    let error = world.put_schema_over("sake", DOCUMENT, &aliases).unwrap().err().unwrap();
    assert!(matches!(&error, PutSchemaError::ReservedAlias(alias) if alias == "種別"));
    assert!(!world.disk.has(&schema_path(&file_stem("sake"))), "a refused PUT must not write the schema file");
    assert_eq!(
        world.disk.sidecar(&file_stem("sake")).schema_digest,
        None,
        "a refused PUT must not touch the sidecar's digest"
    );
}

#[test]
fn a_schema_file_write_failure_rolls_back_the_sidecar_after_the_revision_already_landed() {
    let mut world = World::new();
    assert!(world.create("sake").is_ok());
    let before = world.disk.sidecar(&file_stem("sake"));

    world.disk.fail_after(2);
    let error = world.put_schema("sake", DOCUMENT).unwrap().err().unwrap();
    assert!(!world.disk.clear_fault(), "the fault must have fired, not merely run out");
    assert!(matches!(error, PutSchemaError::Io(_)));

    assert!(
        !world.disk.has(&schema_path(&file_stem("sake"))),
        "the schema file must never land when its own write fails"
    );
    let after = world.disk.sidecar(&file_stem("sake"));
    assert_eq!(after.schema_digest, before.schema_digest);
    assert_eq!(after.revision.config, before.revision.config);
    let entry = world.entry("sake");
    assert_eq!(entry.schema_digest, before.schema_digest);
    assert_eq!(entry.config_revision, before.revision.config);
    assert!(entry.schema.is_none());
}

#[test]
fn schema_of_reports_a_schema_free_context_and_a_missing_one() {
    let mut world = World::new();
    assert!(world.create("sake").is_ok());
    assert!(world.schema_of("sake").unwrap().unwrap().is_none(), "a fresh context has no schema");
    assert!(world.schema_of("nope").is_none());
    assert!(world.put_schema("nope", DOCUMENT).is_none(), "a context that never existed answers the outer None");
}

#[test]
fn schema_of_and_put_schema_report_the_outer_none_for_a_deleted_context() {
    let mut world = World::new();
    assert!(world.create("sake").is_ok());
    assert!(world.delete("sake").unwrap().is_ok());
    assert!(world.schema_of("sake").is_none());
    assert!(world.put_schema("sake", DOCUMENT).is_none());
}

#[test]
fn schema_of_lazily_resolves_after_a_rename_carried_the_digest_but_not_the_schema() {
    let mut world = World::new();
    assert!(world.create("sake").is_ok());
    assert!(world.put_schema("sake", DOCUMENT).unwrap().is_ok());
    assert!(world.rename("sake", "shochu").is_ok());
    assert!(
        world.entry("shochu").schema.is_none(),
        "the freshly registered entry must not resolve the schema up front"
    );
    assert!(world.state.schema_unresolved("shochu"));
    let resolved = world.schema_of("shochu").unwrap().unwrap().unwrap();
    assert_eq!(resolved.mode, "strict");
    assert!(!world.state.schema_unresolved("shochu"));
}

#[test]
fn hidden_label_fails_closed_when_schema_resolution_errors() {
    let mut world = World::new();
    assert!(world.create("sake").is_ok());
    assert_eq!(world.state.hidden_label("sake", Err("resident".to_string()), NOW), None);
    assert!(world.put_schema("sake", DOCUMENT).unwrap().is_ok());
    assert!(world.rename("sake", "shochu").is_ok());
    assert!(world.entry("shochu").schema.is_none());
    world.corrupt_image("shochu");

    assert!(matches!(world.schema_of("shochu"), Some(Err(_))), "the corrupt image must make schema_of itself fail");
    let loaded = world.loaded("shochu");
    assert_eq!(
        world.state.hidden_label("shochu", loaded, NOW),
        Some("schema:type"),
        "a schema-resolution failure must report hidden, not silently unhide"
    );
    let loaded = world.loaded("shochu");
    assert_eq!(world.state.excluded_hidden_label("shochu", loaded, NOW), ["schema:type"]);
    let loaded = world.loaded("shochu");
    let mut labels = NameMap::new();
    labels.insert("種別".to_string(), "schema:type".to_string());
    assert_eq!(world.state.reserved_alias_conflict("shochu", &labels, loaded, NOW).as_deref(), Some("種別"));
}

#[test]
fn a_rollback_finds_its_marker_already_gone_and_still_rolls_back() {
    let mut world = World::new();
    let marker = renaming_marker_path("ghost");
    assert!(!world.disk.has(&marker));
    let error = IoFault { not_found: false, message: "unrelated failure".to_string() };
    let outcome = rollback_rename(error, world.disk.remove(&marker));
    assert!(
        matches!(outcome, RenameStage::RolledBack(fault) if fault.message == "unrelated failure"),
        "a marker already absent must count as retracted"
    );
}

#[test]
fn a_rollback_that_cannot_retract_its_marker_stays_stuck() {
    let mut world = World::new();
    assert!(world.create("sake").is_ok());
    world.disk.put(wal_path(&file_stem("shochu")), File::Obstacle);
    world.disk.fail_after(3);
    assert!(matches!(world.rename("sake", "shochu"), Err(RenameContextError::Io(_))));
    assert!(!world.disk.clear_fault(), "the marker retraction itself must be what failed");
    assert!(world.has_marker("sake"), "the marker that could not be retracted must survive");
    assert!(world.has("sake"), "the source is still registered in memory — it was never tombstoned");
    assert!(
        matches!(world.rename("sake", "shochu"), Err(RenameContextError::Busy)),
        "a rollback stuck on its own marker must keep BOTH names reserved"
    );

    world.disk.files.remove(&wal_path(&file_stem("shochu")));
    let world = world.reboot();
    assert!(!world.has("sake"));
    assert!(world.has("shochu"));
    assert!(!world.has_marker("sake"));
}

#[test]
fn any_pending_membership_alone_makes_a_rename_busy() {
    let mut world = World::new();
    assert!(world.create("from").is_ok());
    for scenario in 0..5 {
        let pending = &mut world.state.pending;
        let (name, reserved) = match scenario {
            0 => ("from", &mut pending.deletes),
            1 => ("to", &mut pending.deletes),
            2 => ("to", &mut pending.creates),
            3 => ("from", &mut pending.renames),
            _ => ("to", &mut pending.renames),
        };
        reserved.insert(name.to_string());
        assert!(
            matches!(world.state.rename_context("from", "to"), Err(RenameContextError::Busy)),
            "a pending {name} entry alone must refuse the rename"
        );
        let pending = &mut world.state.pending;
        pending.deletes.remove(name);
        pending.creates.remove(name);
        pending.renames.remove(name);
    }
    assert!(world.rename("from", "to").is_ok());
}

#[test]
fn a_mid_rename_delete_reports_mid_rename_not_io() {
    let mut world = World::new();
    assert!(world.create("sake").is_ok());
    world.state.pending.renames.insert("sake".to_string());
    assert!(
        matches!(world.delete("sake"), Some(Err(DeleteError::MidRename))),
        "a mid-rename delete must be refused as MidRename, not attempted"
    );
    assert!(world.has("sake"), "the refused delete must not have touched the context");
    assert!(world.delete("nope").is_none());
}

#[test]
fn a_failed_meta_or_schema_save_rolls_the_config_revision_back() {
    let mut world = World::new();
    assert!(world.create("sake").is_ok());
    world.flush_dirty();
    let config = world.entry("sake").config_revision;

    world.disk.fail_after(0);
    assert!(matches!(world.update_meta("sake", None, None, None, Some(0.9)), Some(Err(_))));
    assert_eq!(world.entry("sake").config_revision, config, "a failed meta save must leave the revision untouched");

    world.disk.fail_after(0);
    assert!(matches!(world.put_schema("sake", DOCUMENT), Some(Err(_))));
    assert_eq!(world.entry("sake").config_revision, config, "a failed schema save must leave the revision untouched");
    assert!(world.update_meta("sake", None, None, None, Some(0.9)).unwrap().is_ok());
    assert_eq!(world.entry("sake").config_revision, config + 1);
}

#[test]
fn a_rename_that_never_started_moves_nothing() {
    let stage = rename_context_locked(RenameStage::Hydrate, Err(injected()));
    assert!(matches!(stage, RenameStage::RolledBack(_)) && undo_rename_veto(&stage));
    let stage = rename_context_locked(RenameStage::Drain, Err(injected()));
    assert!(matches!(stage, RenameStage::Retract(_)));
    let stage = rename_context_locked(RenameStage::Move, Err(injected()));
    assert!(matches!(stage, RenameStage::Stuck(_)) && !undo_rename_veto(&stage));
}

#[test]
fn a_late_failure_takes_no_other_change_back() {
    let mut world = World::new();
    assert!(world.create("sake").is_ok());
    let start = world.entry("sake").config_revision;
    let loaded = world.loaded("sake");
    let first = world.state.update_meta("sake", Some("first".to_string()), None, None, None, loaded, NOW).unwrap().ok().unwrap();
    assert!(world.update_meta("sake", Some("second"), None, None, None).unwrap().is_ok());
    assert!(world.state.settle_updated_meta(first, Err(injected())).is_err());
    assert_eq!(world.entry("sake").meta.description, "second");
    assert_eq!(world.entry("sake").config_revision, start + 2);

    let loaded = world.loaded("sake");
    let aliases = NameMap::new();
    let step = world.state.put_schema("sake", installed("one"), Ok(digest("one")), &aliases, loaded, NOW).unwrap();
    let Ok(PutSchemaStep::Write(ticket)) = step else { panic!("it is new") };
    assert!(world.update_meta("sake", Some("third"), None, None, None).unwrap().is_ok());
    assert!(world.state.schema_written(ticket, Err(injected())).is_err());
    assert_eq!(world.entry("sake").schema_digest, None, "the schema did not land");
    assert_eq!(world.entry("sake").meta.description, "third");
    assert_eq!(world.entry("sake").config_revision, start + 4, "the revision does not step back over the meta");
}

#[test]
fn an_installed_schema_gets_an_identity_of_its_own() {
    let mut world = World::new();
    assert!(world.create("sake").is_ok());
    let before = world.entry("sake").cache_identity;
    assert!(world.put_schema("sake", "one").unwrap().is_ok());
    let first = world.entry("sake").cache_identity;
    assert_ne!(before, first);
    assert!(world.put_schema("sake", "one").unwrap().is_ok());
    assert_eq!(world.entry("sake").cache_identity, first, "the same document changes nothing");
    assert!(world.put_schema("sake", "two").unwrap().is_ok());
    assert_ne!(world.entry("sake").cache_identity, first);
}

#[test]
fn a_rename_loses_no_write_that_lands_while_it_saves() {
    let mut world = World::new();
    assert!(world.create("sake").is_ok());
    assert!(world.write("sake", "a").is_ok());
    let ticket = world.state.drain_entry_for_rename("sake").unwrap();
    assert!(ticket.sidecar.is_some());
    assert!(world.write("sake", "b").is_ok());
    assert!(matches!(world.state.rename_detach(&ticket), Detachment::MovedOn), "the save does not hold the second write");
    assert!(world.has("sake"));

    let ticket = world.state.drain_entry_for_rename("sake").unwrap();
    assert!(world.update_meta("sake", Some("changed"), None, None, None).unwrap().is_ok());
    assert!(matches!(world.state.rename_detach(&ticket), Detachment::MovedOn), "nor the changed meta");

    world.flush_dirty();
    assert!(world.evict("sake"));
    let ticket = world.state.drain_entry_for_rename("sake").unwrap();
    assert!(ticket.sidecar.is_none(), "a graph that is not loaded is what its files are");
    assert_eq!(world.count("sake"), 2);
    assert!(matches!(world.state.rename_detach(&ticket), Detachment::MovedOn));

    let ticket = world.state.drain_entry_for_rename("sake").unwrap();
    assert!(matches!(world.state.rename_detach(&ticket), Detachment::Detached(_)));
    assert!(!world.has("sake"));
    assert!(matches!(world.state.rename_detach(&ticket), Detachment::Gone));
    assert!(world.state.drain_entry_for_rename("sake").is_none());
}

#[test]
fn a_marker_is_retired_once_nothing_is_owed() {
    assert!(retire_rename_marker(true, true, true));
    assert!(!retire_rename_marker(true, true, false), "the groups still name the old context");
    assert!(!retire_rename_marker(false, true, true), "a straggler is still held");
    assert!(!retire_rename_marker(false, false, false));
    assert!(retire_rename_marker(true, false, false), "there is nothing left to move or to rewrite");
}
