//! Writing, flushing and evicting, against a disk and graphs held in memory.
use registry::engine::{flushed_names, FlushStep, FlushTicket, WalReset};
use registry::names::NameMap;
use registry::paths::file_stem;
use registry::passages::StoreOutcome;
use registry::residency::EvictStep;
use registry::state::{
    AppState, ContextMeta, ContextQuota, ContextStats, ContextUsage, GraphFacts, IoFault, MetaFile, Options,
    PerContextMetrics, Slot, StoreFacts,
};
use registry::write_path::{AccessError, AppliedStep, LoadedGraph, TrimStep, Unpersisted};
use std::collections::BTreeMap;

#[derive(Clone, Default)]
struct Graph {
    facts: BTreeMap<String, u64>,
    aliases: BTreeMap<String, String>,
}

#[derive(Clone)]
enum Op {
    Fact(String),
    Alias(String, String),
    Unalias(String),
    /// Takes back what a source said: every fact that ends in its name.
    Retract(String),
    Compact,
}

impl Graph {
    fn apply(&mut self, op: &Op) -> bool {
        match op {
            Op::Fact(fact) => {
                *self.facts.entry(fact.clone()).or_default() += 1;
                true
            }
            Op::Alias(alias, canonical) => match self.aliases.get(alias) {
                Some(other) => other == canonical,
                None => {
                    self.aliases.insert(alias.clone(), canonical.clone());
                    true
                }
            },
            Op::Unalias(alias) => self.aliases.remove(alias).is_some(),
            Op::Retract(source) => {
                self.facts.retain(|fact, _| !fact.ends_with(source.as_str()));
                true
            }
            Op::Compact => true,
        }
    }

    fn facts_of(&self) -> GraphFacts {
        let stats = ContextStats { associations: self.facts.len() as u64, ..ContextStats::default() };
        GraphFacts { footprint: 100 * self.facts.len() as u64, stats, applied_seq: 0, dice_floor: None }
    }
}

const RECORD: u64 = 10;

/// What a restart finds.
#[derive(Clone, Default)]
struct Disk {
    images: BTreeMap<String, (Graph, u64)>,
    logs: BTreeMap<String, Vec<(u64, Op)>>,
    usage: BTreeMap<String, ContextUsage>,
    stats: BTreeMap<String, ContextStats>,
}

/// A registry with what surrounds it. The counters say how many more
/// operations of a kind succeed; `None` is no limit.
struct World {
    state: AppState,
    disk: Disk,
    graphs: BTreeMap<String, Graph>,
    /// In seconds since the epoch.
    now: u64,
    /// Whether the images on disk are broken.
    corrupt: bool,
    appends: Option<usize>,
    trims: Option<usize>,
    stages: Option<usize>,
    publishes: Option<usize>,
    truncates: Option<usize>,
}

fn spend(left: &mut Option<usize>) -> bool {
    match left {
        None => true,
        Some(0) => false,
        Some(n) => {
            *n -= 1;
            true
        }
    }
}

fn fault() -> IoFault {
    IoFault { not_found: false, message: "injected".to_string() }
}

fn options(cache_bytes: u64) -> Options {
    Options {
        cache_bytes,
        wal_enabled: true,
        wal_max_bytes: 0,
        per_context_metrics: PerContextMetrics::Off,
        load_retry: 30,
        max_group_members: 100,
        embed_passages: false,
        embedding_model: None,
        semantic_floor: 0,
    }
}

fn fact(text: &str) -> Op {
    Op::Fact(text.to_string())
}

fn alias(alias: &str, canonical: &str) -> Op {
    Op::Alias(alias.to_string(), canonical.to_string())
}

impl World {
    fn boot(disk: Disk, options: Options, quotas: NameMap<ContextQuota>) -> World {
        let mut state = AppState::new(options, quotas, None, 0, None);
        for name in disk.images.keys() {
            let file = MetaFile {
                stats: disk.stats.get(name).copied().unwrap_or_default(),
                usage: disk.usage.get(name).copied().unwrap_or_default(),
                ..MetaFile::default()
            };
            let bytes = disk.logs.get(name).map_or(0, |log| log.len() as u64 * RECORD);
            state.register_scanned(&file_stem(name), file, bytes, 0);
        }
        World {
            state,
            disk,
            graphs: BTreeMap::new(),
            now: 1_000,
            corrupt: false,
            appends: None,
            trims: None,
            stages: None,
            publishes: None,
            truncates: None,
        }
    }

    fn new() -> World {
        World::boot(Disk::default(), options(u64::MAX), NameMap::new())
    }

    /// The process dies and another one starts on its disk.
    fn reboot(self) -> World {
        World::boot(self.disk, options(u64::MAX), NameMap::new())
    }

    fn serial(&self, name: &str) -> u64 {
        self.state.registry.get(name).unwrap().serial
    }

    fn create(&mut self, name: &str) {
        let graph = Graph::default();
        assert!(self.state.create(name).is_ok());
        let facts = graph.facts_of();
        self.disk.images.insert(name.to_string(), (graph.clone(), 0));
        self.graphs.insert(name.to_string(), graph);
        assert!(self.state.settle_created(name, ContextMeta::default(), Ok((facts.stats, facts.footprint))).is_ok());
    }

    /// The image with the log's records past its watermark.
    fn load(&mut self, name: &str) -> Result<LoadedGraph, String> {
        let Some((image, watermark)) = self.disk.images.get(name) else {
            return Err("no image".to_string());
        };
        if self.corrupt {
            return Err("corrupt image".to_string());
        }
        let mut graph = image.clone();
        let log = self.disk.logs.get(name).cloned().unwrap_or_default();
        let mut last = *watermark;
        for (seq, op) in &log {
            if *seq > *watermark {
                graph.apply(op);
            }
            last = last.max(*seq);
        }
        let loaded = LoadedGraph {
            facts: graph.facts_of(),
            wal_seq: last + 1,
            wal_bytes: log.len() as u64 * RECORD,
            graph_revision: 0,
            schema: None,
        };
        self.graphs.insert(name.to_string(), graph);
        Ok(loaded)
    }

    fn loaded(&mut self, name: &str) -> Result<LoadedGraph, String> {
        if self.state.needs_load(name, self.now) {
            self.load(name)
        } else {
            Err("resident".to_string())
        }
    }

    fn append(&mut self, name: &str, first: u64, ops: &[Op]) -> Result<u64, IoFault> {
        if !spend(&mut self.appends) {
            return Err(fault());
        }
        let log = self.disk.logs.entry(name.to_string()).or_default();
        for (at, op) in ops.iter().enumerate() {
            log.push((first + at as u64, op.clone()));
        }
        Ok(ops.len() as u64 * RECORD)
    }

    /// Writes a batch and says how many operations landed. With `crash_after`
    /// the graph fails after so many.
    fn write(&mut self, name: &str, ops: &[Op]) -> Result<usize, AccessError> {
        let grows = ops.iter().any(|op| matches!(op, Op::Fact(_) | Op::Alias(..)));
        let loaded = self.loaded(name);
        let ticket = self.state.logged_write(name, ops.len(), grows, loaded, self.now)?;
        if ticket.staged {
            let appended = self.append(name, ticket.first_seq, ops);
            self.state.log_appended(&ticket, appended)?;
        }
        let graph = self.graphs.get_mut(name).unwrap();
        let mut landed = 0;
        for op in ops {
            if !graph.apply(op) {
                break;
            }
            landed += 1;
        }
        let facts = graph.facts_of();
        if let AppliedStep::Trim { to } = self.state.write_applied(&ticket, landed, facts) {
            let trimmed = spend(&mut self.trims);
            if trimmed {
                self.disk.logs.get_mut(name).unwrap().truncate((to / RECORD) as usize);
            }
            let mut step = self.state.log_trimmed(&ticket, landed, trimmed);
            if let TrimStep::Reappend { first_seq } = step {
                let appended = self.append(name, first_seq, &ops[..landed]);
                step = self.state.log_reappended(&ticket, landed, appended);
            }
            if let TrimStep::FlushNow = step {
                self.flush(name);
            }
        }
        self.state.touch(name);
        self.enforce_budget(name);
        Ok(landed)
    }

    fn read(&mut self, name: &str) -> Result<Graph, AccessError> {
        let loaded = self.loaded(name);
        self.state.ensure_hot(name, loaded, self.now)?;
        self.state.recount_entry(name);
        self.state.touch(name);
        let graph = self.graphs[name].clone();
        self.enforce_budget(name);
        Ok(graph)
    }

    fn flush(&mut self, name: &str) -> bool {
        let serial = self.serial(name);
        self.flush_handle(name, serial)
    }

    fn flush_handle(&mut self, name: &str, serial: u64) -> bool {
        let Some(ticket) = self.state.flush_entry(name, serial) else {
            return false;
        };
        let image = self.graphs[name].clone();
        let staged = spend(&mut self.stages);
        let FlushStep::Publish(file) = self.state.flush_staged(&ticket, staged) else {
            return false;
        };
        let published = spend(&mut self.publishes);
        if published {
            self.disk.usage.insert(name.to_string(), file.usage);
            self.disk.stats.insert(name.to_string(), file.stats);
            self.disk.images.insert(name.to_string(), (image, ticket.watermark));
        }
        let done = self.state.flush_published(&ticket, published, self.now);
        if done.truncate {
            self.truncate(name, serial);
        }
        done.published
    }

    fn truncate(&mut self, name: &str, serial: u64) {
        let reset = if spend(&mut self.truncates) {
            self.disk.logs.remove(name);
            WalReset::Done
        } else {
            WalReset::Failed
        };
        self.state.truncate_wal(name, serial, reset);
    }

    fn flush_dirty(&mut self) -> Vec<String> {
        let visited = self.state.flush_dirty();
        let mut published = Vec::new();
        for handle in &visited {
            published.push(self.flush_handle(&handle.name, handle.serial));
        }
        flushed_names(&visited, &published)
    }

    fn evict(&mut self, name: &str, serial: u64) -> bool {
        self.flush_handle(name, serial);
        let mut freed = match self.state.evict_entry(name, serial) {
            EvictStep::Refused => return false,
            EvictStep::WasCold => false,
            EvictStep::Cooled => true,
            EvictStep::Save(ticket) => {
                let watermark = match self.state.registry.get(name).unwrap().slot {
                    Slot::Hot(facts) => facts.applied_seq,
                    Slot::Cold => unreachable!("it was hot"),
                };
                let saved = spend(&mut self.publishes);
                if saved {
                    self.disk.stats.insert(name.to_string(), ticket.sidecar.stats);
                    self.disk.images.insert(name.to_string(), (self.graphs[name].clone(), watermark));
                }
                let freed = self.state.evict_saved(&ticket, saved);
                if freed {
                    self.truncate(name, serial);
                } else {
                    return false;
                }
                freed
            }
        };
        if freed {
            self.graphs.remove(name);
        }
        freed |= self.state.evict_residents(name, serial, 0).freed;
        freed
    }

    fn enforce_budget(&mut self, except: &str) {
        let Some(mut sweep) = self.state.enforce_budget() else {
            return;
        };
        while let Some(at) = self.state.next_victim(&mut sweep, except) {
            let name = sweep.candidates[at].name.clone();
            let serial = sweep.candidates[at].serial;
            let freed = self.evict(&name, serial);
            self.state.victim_evicted(&mut sweep, at, freed);
        }
        self.state.settle_budget(&sweep);
    }

    fn is_loaded(&self, name: &str) -> bool {
        matches!(self.state.registry.get(name).unwrap().slot, Slot::Hot(_))
    }

    fn delete(&mut self, name: &str) {
        assert!(matches!(self.state.delete(name), Some(Ok(()))));
        self.disk.images.remove(name);
        self.disk.logs.remove(name);
        self.graphs.remove(name);
        assert!(self.state.settle_deleted(name, Ok(())).is_ok());
    }
}

#[test]
fn ensure_hot_records_hits_and_loads() {
    let mut world = World::new();
    world.create("sake");
    let mut world = world.reboot();
    assert!(world.state.needs_load("sake", world.now));
    assert!(world.read("sake").is_ok());
    assert_eq!(world.state.metrics().loads_ok, 1);
    assert!(!world.state.needs_load("sake", world.now), "the second read is a hit");
    assert!(world.read("sake").is_ok());
    assert_eq!(world.state.metrics().cache_hits, 1);
    assert_eq!((world.state.metrics().loads_ok, world.state.metrics().loads_failed), (1, 0));
    let gauges = world.state.gauge_snapshot(None::<()>);
    assert_eq!(gauges.contexts_registered, 1);
    assert_eq!(gauges.contexts_resident, 1);
}

fn capped(name: &str, storage: Option<u64>, cache: Option<u64>) -> NameMap<ContextQuota> {
    let mut quotas = NameMap::new();
    quotas.insert(name.to_string(), ContextQuota { storage_bytes: storage, cache_bytes: cache });
    quotas
}

#[test]
fn storage_quota_refuses_growth_and_keeps_the_shrink_paths_open() {
    let mut world = World::boot(Disk::default(), options(u64::MAX), capped("capped", Some(1), None));
    world.create("capped");
    assert!(matches!(world.write("capped", &[fact("蔵 杜氏 高瀬 keep.md")]), Ok(1)));
    let Err(AccessError::QuotaExceeded(message)) = world.write("capped", &[fact("蔵 銘柄 青嶺 keep.md")]) else {
        panic!("growth past the ceiling must refuse");
    };
    assert!(message.contains("storage quota"), "{message}");
    assert!(message.contains("retract or compact"), "{message}");
    assert!(message.contains("'capped'") && message.contains("10 of 1 bytes"), "{message}");
    assert!(
        matches!(world.write("capped", &[alias("酒蔵", "蔵")]), Err(AccessError::QuotaExceeded(_))),
        "aliases are the other growth family"
    );
    assert!(matches!(world.write("capped", &[Op::Retract("keep.md".to_string())]), Ok(1)), "the shrink paths stay open");
    assert!(matches!(world.write("capped", &[Op::Compact]), Ok(1)), "the shrink paths stay open");

    // A flush moves the bytes out of the log and into the image.
    assert_eq!(world.flush_dirty(), ["capped"]);
    for handle in world.state.refresh_disk_usage() {
        world.state.disk_refreshed(&handle.name, handle.serial, registry::gauges::disk_usage_of([80, 0, 20, 0, 0, 0, 0]));
    }
    assert!(matches!(world.write("capped", &[fact("蔵 産地 灘 keep.md")]), Err(AccessError::QuotaExceeded(_))));
    assert_eq!(world.state.storage_quota_refusal("capped"), Some((100, 1)));
    assert_eq!(world.state.metrics().storage_quota_refusals, 3);

    world.create("free");
    assert!(matches!(world.write("free", &[fact("蔵 杜氏 高瀬")]), Ok(1)));
    assert_eq!(world.state.storage_quota_refusal("free"), None);
}

#[test]
fn cache_ceiling_evicts_the_over_quota_context_before_the_lru_victim() {
    let mut world = World::new();
    for name in ["old", "hog", "fresh"] {
        world.create(name);
        assert!(world.write(name, &[fact("蔵 杜氏 高瀬"), fact("蔵 銘柄 青嶺")]).is_ok());
    }
    world.flush_dirty();
    let footprint = world.graphs["old"].facts_of().footprint;
    let mut world = World::boot(world.disk, options(footprint * 5 / 2), capped("hog", None, Some(1)));
    for name in ["old", "hog", "fresh"] {
        assert!(world.read(name).is_ok());
    }
    assert!(!world.is_loaded("hog"), "the over-ceiling context must go first");
    assert!(world.is_loaded("old"), "plain LRU would have evicted old");
    assert!(world.is_loaded("fresh"));
}

#[test]
fn a_failed_load_is_quarantined_until_the_retry_window_elapses() {
    let mut world = World::new();
    world.create("sake");
    assert!(world.write("sake", &[fact("蔵 杜氏 高瀬")]).is_ok());
    world.flush_dirty();
    let mut world = world.reboot();
    world.corrupt = true;
    let Err(AccessError::Load(first)) = world.read("sake") else {
        panic!("a corrupt image must refuse the read");
    };
    assert!(first.contains("corrupt"), "{first}");

    // The image is repaired. Within the window the remembered refusal still
    // answers.
    world.corrupt = false;
    world.now += 29;
    assert!(!world.state.needs_load("sake", world.now), "the disk is not read meanwhile");
    let Err(AccessError::Load(second)) = world.read("sake") else {
        panic!("the quarantine must still refuse");
    };
    assert!(second.contains("quarantined"), "{second}");
    assert!(second.contains("corrupt"), "{second}");
    assert_eq!(world.state.metrics().loads_failed, 1, "a quarantined refusal is not a second load attempt");
    assert!(matches!(world.write("sake", &[fact("蔵 銘柄 青嶺")]), Err(AccessError::Load(_))), "nor is it written to");

    // Past the window, the retry sees the repaired image and heals.
    world.now += 1;
    assert_eq!(world.read("sake").ok().unwrap().facts.len(), 1);
    assert!(world.state.registry.get("sake").unwrap().load_failure.is_none());
    assert_eq!(world.state.metrics().loads_ok, 1);
}

#[test]
fn a_quarantine_without_a_window_is_none() {
    let mut world = World::boot(Disk::default(), Options { load_retry: 0, ..options(u64::MAX) }, NameMap::new());
    world.create("sake");
    let serial = world.serial("sake");
    assert!(world.evict("sake", serial));
    world.corrupt = true;
    assert!(world.read("sake").is_err());
    world.corrupt = false;
    assert!(world.read("sake").is_ok());
}

#[test]
fn health_follows_the_flusher_down_and_back_up() {
    let mut world = World::new();
    world.create("sake");
    assert!(world.write("sake", &[fact("青嶺酒造 代表銘柄 青嶺")]).is_ok());
    world.flush_dirty();
    assert!(world.state.metrics().flush_is_healthy());
    let stamped = world.state.metrics().last_flush_success_epoch();
    assert!(stamped > 0, "a successful flush must stamp the gauge");
    assert_eq!(stamped, world.now);

    // The disk goes bad: the next flush fails, health turns with it.
    assert!(world.write("sake", &[fact("青嶺酒造 杜氏 高瀬")]).is_ok());
    world.stages = Some(0);
    assert!(world.flush_dirty().is_empty());
    assert!(!world.state.metrics().flush_is_healthy());

    // The disk recovers: the next tick heals the signal.
    world.stages = None;
    assert_eq!(world.flush_dirty(), vec!["sake".to_string()]);
    assert!(world.state.metrics().flush_is_healthy());
}

#[test]
fn one_context_flushing_does_not_heal_another() {
    let mut world = World::new();
    for name in ["a", "b"] {
        world.create(name);
        assert!(world.write(name, &[fact("x")]).is_ok());
    }
    world.publishes = Some(0);
    assert!(!world.flush("a"));
    world.publishes = None;
    assert!(world.flush("b"));
    assert!(!world.state.metrics().flush_is_healthy(), "the last flush of 'a' failed");
    assert!(world.flush("a"));
    assert!(world.state.metrics().flush_is_healthy());
}

#[test]
fn flush_and_eviction_record_their_outcomes() {
    let mut world = World::boot(Disk::default(), options(1), NameMap::new());
    world.create("a");
    world.create("b");
    assert!(world.write("a", &[fact("私 好き りんご")]).is_ok());
    assert!(world.read("b").is_ok());
    assert_eq!(world.state.metrics().evictions_ok, 1);
    assert!(world.write("b", &[fact("用語 意味 定義")]).is_ok());
    world.flush_dirty();
    assert_eq!(world.state.metrics().flushes_ok, 2, "a flushed dirty context must count");
}

#[test]
fn unflushed_writes_survive_a_process_restart_via_the_wal() {
    let mut world = World::new();
    world.create("sake");
    assert!(world.write("sake", &[fact("青嶺酒造 創業年 1907年")]).is_ok());
    let mut world = world.reboot();
    let graph = world.read("sake").ok().unwrap();
    assert_eq!(graph.facts.len(), 1, "the acknowledged write must survive");
    assert_eq!(graph.facts["青嶺酒造 創業年 1907年"], 1);
}

#[test]
fn a_failed_reappend_after_a_partial_apply_still_persists_acknowledged_ops() {
    let mut world = World::new();
    world.create("sake");
    assert!(world.write("sake", &[fact("青嶺酒造 所在地 京都酒造")]).is_ok());
    assert!(world.write("sake", &[alias("kyo", "京都酒造")]).is_ok());
    world.appends = Some(1);
    let landed = world.write("sake", &[alias("aomine", "青嶺酒造"), alias("kyo", "青嶺酒造")]).ok().unwrap();
    assert_eq!(landed, 1, "the first alias landed before the conflict");
    let mut reborn = world.reboot();
    let aliases = reborn.read("sake").ok().unwrap().aliases;
    assert_eq!(aliases.get("aomine").map(String::as_str), Some("青嶺酒造"), "the acknowledged alias must survive the crash");
}

#[test]
fn a_failed_wal_trim_after_a_partial_apply_keeps_the_untried_tail_from_replaying() {
    let mut world = World::new();
    world.create("sake");
    assert!(world.write("sake", &[fact("青嶺酒造 所在地 京都酒造")]).is_ok());
    assert!(world.write("sake", &[alias("kyo", "京都酒造")]).is_ok());
    world.trims = Some(0);
    let batch = [alias("aomine", "青嶺酒造"), alias("kyo", "青嶺酒造"), alias("mine", "青嶺酒造")];
    assert_eq!(world.write("sake", &batch).ok().unwrap(), 1, "only the first alias landed before the conflict");
    // The log still holds the whole batch when the process dies.
    let mut reborn = world.reboot();
    let aliases = reborn.read("sake").ok().unwrap().aliases;
    assert_eq!(aliases.get("aomine").map(String::as_str), Some("青嶺酒造"));
    assert_eq!(aliases.get("kyo").map(String::as_str), Some("京都酒造"), "the conflicting alias must keep its original target");
    assert!(!aliases.contains_key("mine"), "an op the caller was told failed must not replay into existence");
}

#[test]
fn a_flush_whose_snapshot_predates_a_delete_does_not_resurrect_the_files() {
    let mut world = World::new();
    world.create("victim");
    assert!(world.write("victim", &[fact("青嶺酒造 代表銘柄 青嶺")]).is_ok());
    let stale = world.state.flush_dirty();
    world.delete("victim");
    for handle in &stale {
        assert!(world.state.flush_entry(&handle.name, handle.serial).is_none(), "a deleted context must not flush");
    }
    assert!(world.disk.images.is_empty());
    assert_eq!(world.reboot().state.context_count(), 0, "the deleted context re-registered on boot");
}

#[test]
fn a_flush_that_staged_before_a_delete_is_discarded() {
    let mut world = World::new();
    world.create("victim");
    assert!(world.write("victim", &[fact("x")]).is_ok());
    let serial = world.serial("victim");
    let ticket = world.state.flush_entry("victim", serial).unwrap();
    world.delete("victim");
    world.create("victim");
    assert!(matches!(world.state.flush_staged(&ticket, true), FlushStep::Discard), "another registration has the name");
}

#[test]
fn wal_growth_is_visible_and_the_cap_refuses_further_writes() {
    let mut world = World::new();
    world.create("sake");
    assert_eq!(world.state.gauge_snapshot(None::<()>).wal_bytes, 0);
    assert!(world.write("sake", &[fact("青嶺酒造 代表銘柄 青嶺")]).is_ok());
    assert_eq!(world.state.gauge_snapshot(None::<()>).wal_bytes, RECORD, "an append must show in the gauge");
    assert_eq!(world.state.metrics().wal_appends_ok, 1);
    world.flush_dirty();
    assert_eq!(world.state.gauge_snapshot(None::<()>).wal_bytes, 0, "truncation must zero the gauge");
    assert!(world.write("sake", &[fact("青嶺酒造 杜氏 高瀬")]).is_ok());
    let world = world.reboot();
    assert!(world.state.gauge_snapshot(None::<()>).wal_bytes > 0, "boot must stat leftover logs");

    let mut world = World::boot(Disk::default(), Options { wal_max_bytes: 1, ..options(u64::MAX) }, NameMap::new());
    world.create("sake");
    assert!(world.write("sake", &[fact("a l b")]).is_ok());
    assert!(matches!(
        world.write("sake", &[fact("c l d")]),
        Err(AccessError::Unpersisted(Unpersisted::LogAtCap { wal_bytes: 10, cap: 1 }))
    ));
}

#[test]
fn the_budget_gate_tracks_loads_writes_pins_and_deletes() {
    let mut world = World::new();
    world.create("sake");
    assert!(world.write("sake", &[fact("青嶺酒造 代表銘柄 青嶺")]).is_ok());
    let after_write = world.state.resident_estimate;
    assert!(after_write > 0, "a resident written context must count");

    for pinned in [true, false] {
        let ticket = match world.state.update_meta("sake", None, Some(pinned), None, None, Err("resident".to_string()), 1_000) {
            Some(Ok(ticket)) => ticket,
            _ => panic!("the change is admitted"),
        };
        assert!(world.state.settle_updated_meta(ticket, Ok(())).is_ok());
        if pinned {
            assert_eq!(world.state.resident_estimate, 0);
        } else {
            assert!(world.state.resident_estimate >= after_write);
        }
    }
    world.delete("sake");
    assert_eq!(world.state.resident_estimate, 0);
}

#[test]
fn alias_removal_survives_a_restart_via_the_wal() {
    let mut world = World::new();
    world.create("sake");
    assert!(world.write("sake", &[fact("青嶺酒造 創業年 1907年")]).is_ok());
    assert!(world.write("sake", &[alias("Aomine", "青嶺酒造")]).is_ok());
    world.flush_dirty();
    assert!(matches!(world.write("sake", &[Op::Unalias("Aomine".to_string())]), Ok(1)));
    let mut reborn = world.reboot();
    assert_eq!(reborn.read("sake").ok().unwrap().aliases.len(), 0, "the un-flushed removal must replay");
}

#[test]
fn replay_does_not_double_apply_records_already_baked_into_the_image() {
    let mut world = World::new();
    world.create("sake");
    assert!(world.write("sake", &[fact("青嶺酒造 代表銘柄 青嶺")]).is_ok());
    let logged = world.disk.logs["sake"].clone();
    assert!(!logged.is_empty());
    assert_eq!(world.flush_dirty(), ["sake"]);
    assert!(world.disk.logs.get("sake").is_none());
    // A crash between the image going into place and the truncation.
    world.disk.logs.insert("sake".to_string(), logged);
    let mut world = world.reboot();
    assert_eq!(world.read("sake").ok().unwrap().facts["青嶺酒造 代表銘柄 青嶺"], 1);
}

#[test]
fn aliases_and_retractions_ride_the_wal_across_a_restart() {
    let mut world = World::new();
    world.create("sake");
    assert!(world.write("sake", &[fact("青嶺酒造 仕込み水 伏流水 第2段落"), fact("青嶺酒造 仕込み水 伏流水 第5段落")]).is_ok());
    assert!(world.write("sake", &[alias("Aomine", "青嶺酒造")]).is_ok());
    assert!(matches!(world.write("sake", &[Op::Retract("第5段落".to_string())]), Ok(1)));
    let mut world = world.reboot();
    let graph = world.read("sake").ok().unwrap();
    assert_eq!(graph.aliases["Aomine"], "青嶺酒造", "the alias entry point must replay");
    assert_eq!(graph.facts.len(), 1, "the retraction must replay");
    assert_eq!(graph.facts["青嶺酒造 仕込み水 伏流水 第2段落"], 1);
}

#[test]
fn replay_does_not_apply_ops_a_partial_batch_never_tried() {
    let mut world = World::new();
    world.create("sake");
    assert!(world.write("sake", &[fact("青嶺酒造 代表銘柄 青嶺")]).is_ok());
    assert!(world.write("sake", &[alias("Aomine", "青嶺酒造"), alias("AomineShuzo", "青嶺酒造")]).is_ok());
    let batch =
        [Op::Unalias("Aomine".to_string()), Op::Unalias("NONEXISTENT".to_string()), Op::Unalias("AomineShuzo".to_string())];
    assert_eq!(world.write("sake", &batch).ok().unwrap(), 1, "only the leading op ran");
    let mut world = world.reboot();
    let aliases = world.read("sake").ok().unwrap().aliases;
    assert!(aliases.contains_key("AomineShuzo"), "the untried alias must survive");
    assert!(!aliases.contains_key("Aomine"), "the removal that did apply live must still hold after replay");
}

#[test]
fn a_wal_that_cannot_be_written_refuses_the_write() {
    let mut world = World::new();
    world.create("sake");
    world.appends = Some(0);
    let outcome = world.write("sake", &[fact("青嶺酒造 代表銘柄 青嶺")]);
    assert!(matches!(outcome, Err(AccessError::Unpersisted(Unpersisted::Append(_)))));
    assert_eq!(world.read("sake").ok().unwrap().facts.len(), 0, "nothing reached the graph");
    assert_eq!(world.state.metrics().wal_appends_failed, 1);
}

#[test]
fn disabling_the_wal_restores_the_flush_window() {
    let mut world = World::boot(Disk::default(), Options { wal_enabled: false, ..options(u64::MAX) }, NameMap::new());
    world.create("sake");
    assert!(world.write("sake", &[fact("青嶺酒造 代表銘柄 青嶺")]).is_ok());
    assert!(world.disk.logs.get("sake").is_none(), "no log may be written when disabled");
    let mut world = world.reboot();
    assert_eq!(world.read("sake").ok().unwrap().facts.len(), 0);
}

#[test]
fn every_flush_persistence_failure_retries_or_replays_cleanly() {
    for failure in 0..4 {
        let mut world = World::new();
        world.create("sake");
        assert!(world.write("sake", &[fact("蔵 杜氏 高瀬")]).is_ok());
        match failure {
            0 => world.stages = Some(0),
            1 => world.publishes = Some(0),
            2 => world.truncates = Some(0),
            _ => {}
        }
        let first = world.flush_dirty();
        world.stages = None;
        world.publishes = None;
        world.truncates = None;
        if first.is_empty() {
            assert_eq!(world.flush_dirty(), ["sake"], "dirty retry did not flush after failure {failure}");
        }
        let mut world = world.reboot();
        let graph = world.read("sake").ok().unwrap();
        assert_eq!(graph.facts.len(), 1);
        assert_eq!(graph.facts["蔵 杜氏 高瀬"], 1, "failure {failure} lost or duplicated the write");
    }
}

#[test]
fn budget_evicts_lru_and_reloads_transparently() {
    let mut world = World::boot(Disk::default(), options(1), NameMap::new());
    world.create("a");
    world.create("b");
    assert!(world.write("a", &[fact("私 好き りんご")]).is_ok());
    assert!(world.read("b").is_ok());
    assert!(!world.is_loaded("a"), "a must be evicted");
    assert!(world.is_loaded("b"), "the just-used context must stay");
    assert_eq!(world.read("a").ok().unwrap().facts.len(), 1);
}

#[test]
fn a_second_eviction_of_the_same_entry_frees_nothing() {
    let mut world = World::new();
    world.create("sake");
    let ticket = match world.state.store_passages("sake") {
        Some(Ok(ticket)) => ticket,
        _ => panic!("admitted"),
    };
    let outcome = StoreOutcome { facts: StoreFacts { footprint: 40, pending_log_bytes: 5 }, watermark: 1 };
    assert!(world.state.passages_stored(&ticket, &Vec::new(), Ok(outcome)).is_ok());
    let serial = world.serial("sake");
    assert!(world.evict("sake", serial));
    assert!(!world.evict("sake", serial), "a repeat eviction must not claim a second freeing");
}

#[test]
fn a_panic_inside_logged_write_forces_a_cold_reload_that_replays_the_wal() {
    let mut world = World::new();
    world.create("sake");
    let ops = [fact("青嶺酒造 創業年 1907年"), fact("青嶺酒造 所在地 灘")];
    let ticket = world.state.logged_write("sake", 2, true, Err("resident".to_string()), 1_000).ok().unwrap();
    let appended = world.append("sake", ticket.first_seq, &ops);
    assert!(world.state.log_appended(&ticket, appended).is_ok());
    // Only the first of them is applied before the graph fails.
    world.graphs.get_mut("sake").unwrap().apply(&ops[0]);
    world.state.write_panicked(&ticket);
    let graph = world.read("sake").ok().unwrap();
    assert_eq!(graph.facts.len(), 2, "both logged ops must survive, in this same process");
}

#[test]
fn a_pinned_context_is_never_evicted_and_a_failed_save_keeps_the_graph() {
    let mut world = World::new();
    world.create("sake");
    assert!(world.write("sake", &[fact("x")]).is_ok());
    world.stages = Some(0);
    world.publishes = Some(0);
    let serial = world.serial("sake");
    assert!(!world.evict("sake", serial));
    assert!(world.is_loaded("sake"));
    assert_eq!(world.state.metrics().evictions_failed, 1);
    world.state.registry.get_mut("sake").unwrap().meta.pinned = true;
    world.stages = None;
    world.publishes = None;
    assert!(!world.evict("sake", serial));
    assert!(world.is_loaded("sake"));
}

#[test]
fn a_write_during_a_flush_stays_dirty_and_its_log_stays() {
    let mut world = World::new();
    world.create("sake");
    assert!(world.write("sake", &[fact("x")]).is_ok());
    let serial = world.serial("sake");
    let ticket = world.state.flush_entry("sake", serial).unwrap();
    assert!(world.state.flush_entry("sake", serial).is_none(), "one flush at a time");
    let image = world.graphs["sake"].clone();
    assert!(world.write("sake", &[fact("y")]).is_ok());
    assert!(matches!(world.state.flush_staged(&ticket, true), FlushStep::Publish(_)));
    world.disk.images.insert("sake".to_string(), (image, ticket.watermark));
    let done = world.state.flush_published(&ticket, true, 1_000);
    assert!(done.published && !done.truncate, "the log holds a record that the image does not");
    assert!(world.state.registry.get("sake").unwrap().dirty);
    let mut world = world.reboot();
    assert_eq!(world.read("sake").ok().unwrap().facts.len(), 2);
}

#[test]
fn an_eviction_and_a_reload_outdate_a_staged_image() {
    let mut world = World::new();
    world.create("sake");
    assert!(world.write("sake", &[fact("x")]).is_ok());
    let serial = world.serial("sake");
    let ticket = world.state.flush_entry("sake", serial).unwrap();
    // The claim makes an eviction save the image itself.
    assert!(world.evict("sake", serial));
    assert!(world.read("sake").is_ok());
    assert!(matches!(world.state.flush_staged(&ticket, true), FlushStep::Discard));
}

/// A flush that was begun: its ticket, the image it holds, and its sidecar
/// once that was granted.
struct InFlight {
    ticket: FlushTicket,
    image: Graph,
    granted: bool,
}

/// Takes one step of a flush: it begins, is staged, or is published.
fn step_flush(world: &mut World, name: &str, flight: &mut Option<InFlight>) {
    match flight.take() {
        None => {
            let serial = world.serial(name);
            if let Some(ticket) = world.state.flush_entry(name, serial) {
                *flight = Some(InFlight { ticket, image: world.graphs[name].clone(), granted: false });
            }
        }
        Some(mut run) if !run.granted => {
            if let FlushStep::Publish(_) = world.state.flush_staged(&run.ticket, true) {
                run.granted = true;
                *flight = Some(run);
            }
        }
        Some(run) => {
            world.disk.images.insert(name.to_string(), (run.image, run.ticket.watermark));
            let done = world.state.flush_published(&run.ticket, true, 1_000);
            if done.truncate {
                world.truncate(name, run.ticket.serial);
            }
        }
    }
}

#[test]
fn writes_racing_the_flusher_survive_a_restart() {
    let mut world = World::new();
    world.create("sake");
    let mut flight = None;
    let mut seed: u64 = 7;
    for index in 0..100 {
        assert!(world.write("sake", &[fact(&format!("s{index} l o"))]).is_ok());
        seed = seed.wrapping_mul(6_364_136_223_846_793_005).wrapping_add(1_442_695_040_888_963_407);
        for _ in 0..(seed >> 60) % 4 {
            step_flush(&mut world, "sake", &mut flight);
        }
    }
    let mut world = world.reboot();
    assert_eq!(world.read("sake").ok().unwrap().facts.len(), 100, "every acknowledged write must survive");
}

#[test]
fn a_flusher_stalled_on_another_context_cannot_resurrect_a_delete() {
    let mut world = World::new();
    for name in ["decoy", "victim"] {
        world.create(name);
        assert!(world.write(name, &[fact("青嶺酒造 代表銘柄 青嶺")]).is_ok());
    }
    let visited = world.state.flush_dirty();
    assert_eq!(visited.len(), 2);
    world.delete("victim");
    for handle in &visited {
        assert_eq!(world.flush_handle(&handle.name, handle.serial), handle.name == "decoy");
    }
    assert!(!world.disk.images.contains_key("victim") && !world.disk.logs.contains_key("victim"));
    assert_eq!(world.reboot().state.context_count(), 1, "only the decoy may remain");
}

#[test]
fn a_flush_racing_an_eviction_loses_no_write_with_the_wal_off() {
    let mut tight = options(1);
    tight.wal_enabled = false;
    let mut world = World::boot(Disk::default(), tight, NameMap::new());
    for name in ["sake", "wine"] {
        world.create(name);
    }
    let mut flights = [None, None];
    let mut seed: u64 = 11;
    for index in 0..200 {
        for (at, name) in ["sake", "wine"].into_iter().enumerate() {
            assert!(world.write(name, &[fact(&format!("s{index} l o"))]).is_ok());
            seed = seed.wrapping_mul(6_364_136_223_846_793_005).wrapping_add(1_442_695_040_888_963_407);
            for _ in 0..(seed >> 60) % 4 {
                // A publication holds the entry's lock, so no write falls
                // between a grant and it.
                step_flush(&mut world, name, &mut flights[at]);
                while flights[at].as_ref().is_some_and(|run| run.granted) {
                    step_flush(&mut world, name, &mut flights[at]);
                }
            }
        }
    }
    for name in ["sake", "wine"] {
        let graph = world.read(name).ok().unwrap();
        assert_eq!(graph.facts.len(), 200, "context '{name}' lost writes to the race");
    }
}

#[test]
fn an_eviction_racing_a_reload_and_a_stale_flush_never_regresses_the_image() {
    let mut world = World::new();
    world.create("sake");
    let seed: Vec<Op> = (0..50).map(|index| fact(&format!("seed-{index}"))).collect();
    assert!(world.write("sake", &seed).is_ok());
    let mut flight = None;
    step_flush(&mut world, "sake", &mut flight);
    assert!(flight.is_some());
    assert!(world.write("sake", &[fact("b l o")]).is_ok());
    let serial = world.serial("sake");
    assert!(world.evict("sake", serial), "the write above must leave `sake` dirty and evictable");
    assert!(world.write("sake", &[fact("c l o")]).is_ok());
    step_flush(&mut world, "sake", &mut flight);
    assert!(flight.is_none(), "the staged image is of a graph that was dropped since");

    assert_eq!(world.read("sake").ok().unwrap().facts.len(), 52, "the race lost a write in memory");
    let mut world = world.reboot();
    assert_eq!(
        world.read("sake").ok().unwrap().facts.len(),
        52,
        "a stale flush regressed the image past what the eviction had already made durable"
    );
}

#[test]
fn an_eviction_loses_no_write_that_lands_while_it_saves() {
    let mut world = World::new();
    world.create("sake");
    assert!(world.write("sake", &[fact("a b c")]).is_ok());
    let serial = world.serial("sake");
    let EvictStep::Save(ticket) = world.state.evict_entry("sake", serial) else { panic!("it is dirty") };
    assert!(matches!(world.state.evict_entry("sake", serial), EvictStep::Refused), "one eviction at a time");
    assert!(world.write("sake", &[fact("d e f")]).is_ok());
    assert!(!world.state.evict_saved(&ticket, true), "the save does not hold the second write");
    assert!(world.is_loaded("sake"));
    assert!(world.state.registry.get("sake").unwrap().dirty);
    assert!(world.evict("sake", serial));
    assert_eq!(world.read("sake").ok().unwrap().facts.len(), 2);
}

#[test]
fn a_flush_that_staged_before_an_eviction_save_is_discarded() {
    let mut world = World::new();
    world.create("sake");
    assert!(world.write("sake", &[fact("a b c")]).is_ok());
    let serial = world.serial("sake");
    let flush = world.state.flush_entry("sake", serial).unwrap();
    let EvictStep::Save(ticket) = world.state.evict_entry("sake", serial) else { panic!("a flush holds it") };
    assert!(matches!(world.state.flush_staged(&flush, true), FlushStep::Discard));
    assert!(world.state.registry.get("sake").unwrap().dirty, "what is being saved does not look clean");
    assert!(!world.state.evict_saved(&ticket, false));
    assert!(world.is_loaded("sake"), "a failed save keeps the graph");
    assert!(world.flush("sake"), "and the next flush saves it");
}
