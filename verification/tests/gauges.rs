//! What the registry counts and shows of itself.
use registry::gauges::{disk_files, disk_usage_of, ContextGaugeRow, GaugeSnapshot};
use registry::names::NameMap;
use registry::passages::StoreOutcome;
use registry::residency::EvictStep;
use registry::retrieval_cache::RetrievalCacheOp;
use registry::state::{
    AppState, ContextDiskUsage, ContextMeta, ContextQuota, ContextStats, Entry, GraphFacts, Options, PerContextMetrics,
    ReplicaInfo, Slot, StoreFacts,
};

fn options(rows: PerContextMetrics) -> Options {
    Options {
        cache_bytes: u64::MAX,
        wal_enabled: true,
        wal_max_bytes: 0,
        per_context_metrics: rows,
        load_retry: 30,
        max_group_members: 100,
        embed_passages: false,
        embedding_model: None,
        semantic_floor: 0,
    }
}

fn boot(rows: PerContextMetrics) -> AppState {
    AppState::new(options(rows), NameMap::new(), None, 0, None)
}

fn create(state: &mut AppState, name: &str, pinned: bool) {
    let meta = ContextMeta { pinned, ..ContextMeta::default() };
    assert!(state.create(name).is_ok());
    assert!(state.settle_created(name, meta, Ok((ContextStats::default(), 100))).is_ok());
}

fn hold(state: &mut AppState, name: &str, stats: ContextStats, footprint: u64) {
    let entry = state.registry.get_mut(name).unwrap();
    entry.slot = Slot::Hot(GraphFacts { footprint, stats, applied_seq: 0, dice_floor: None });
    entry.dirty = true;
}

fn evict(state: &mut AppState, name: &str) -> bool {
    let serial = state.registry.get(name).unwrap().serial;
    let saved = match state.evict_entry(name, serial) {
        EvictStep::Save(ticket) => state.evict_saved(&ticket, true),
        EvictStep::Cooled => true,
        EvictStep::WasCold => false,
        EvictStep::Refused => return false,
    };
    let dropped = state.evict_residents(name, serial, 0);
    saved || dropped.freed
}

#[test]
fn usage_notes_accumulate_and_survive_a_reboot_via_the_shutdown_sweep() {
    let mut state = boot(PerContextMetrics::Off);
    create(&mut state, "sake", false);
    state.note_read("sake", false, 1_700_000_000);
    state.note_read("sake", true, 1_700_000_001);
    state.note_write("sake", 1_700_000_002);
    let usage = state.registry.get("sake").unwrap().usage;
    assert_eq!((usage.reads, usage.empty_reads, usage.writes), (2, 1, 1));
    assert!(usage.last_read_epoch > 0);
    assert!(usage.last_write_epoch > 0);
    let mut writes = state.persist_usage();
    assert_eq!(writes.len(), 1);
    let write = writes.remove(0);
    assert_eq!(write.name, "sake");
    state.usage_persisted("sake", write.serial, true);
    assert!(state.persist_usage().is_empty(), "nothing is owed twice");

    let rebooted = Entry::cold_from_meta(0, 0, write.sidecar, 0, 0);
    assert_eq!((rebooted.usage.reads, rebooted.usage.empty_reads, rebooted.usage.writes), (2, 1, 1));
}

#[test]
fn a_usage_write_that_fails_is_owed_again_and_a_replica_owes_none() {
    let mut state = boot(PerContextMetrics::Off);
    create(&mut state, "sake", false);
    state.note_read("sake", false, 1);
    let write = state.persist_usage().remove(0);
    state.usage_persisted("sake", write.serial, false);
    assert_eq!(state.persist_usage().len(), 1);
    state.note_read("nope", false, 1);

    let mut replica = AppState::new(
        options(PerContextMetrics::Off),
        NameMap::new(),
        Some(ReplicaInfo { writer: "w".to_string() }),
        0,
        None,
    );
    create(&mut replica, "sake", false);
    replica.note_read("sake", false, 1);
    assert!(replica.persist_usage().is_empty());
    assert_eq!(replica.registry.get("sake").unwrap().usage.reads, 1);
}

#[test]
fn a_search_counts_twice_over() {
    let mut state = boot(PerContextMetrics::Off);
    create(&mut state, "sake", false);
    state.note_search(RetrievalCacheOp::Recall, "sake", true, 5);
    state.note_search(RetrievalCacheOp::SearchPassages, "sake", false, 6);
    let counts = state.metrics();
    assert_eq!((counts.searches.recall, counts.searches.search_passages), (1, 1));
    assert_eq!((counts.empty_searches.recall, counts.empty_searches.search_passages), (1, 0));
    let usage = state.registry.get("sake").unwrap().usage;
    assert_eq!((usage.reads, usage.empty_reads, usage.last_read_epoch), (2, 1, 6));
}

#[test]
fn maintenance_guard_is_a_one_shot_cas_released_by_drop() {
    let mut state = boot(PerContextMetrics::Off);
    let guard = state.try_enter_maintenance().expect("first entry succeeds");
    assert!(state.metrics().maintenance);
    assert!(state.try_enter_maintenance().is_none(), "a second sweep must not overlap the first");
    state.leave_maintenance(guard);
    assert!(!state.metrics().maintenance);
    let _second = state.try_enter_maintenance().expect("reopened once the guard drops");
}

/// The weight of all unsourced edges.
fn weight_total(snapshot: &GaugeSnapshot<()>) -> f64 {
    snapshot.unsourced_weights.iter().map(|bits| f64::from_bits(*bits)).sum()
}

#[test]
fn dead_weight_gauges_track_hot_and_cold_contexts() {
    let mut state = boot(PerContextMetrics::Off);
    create(&mut state, "sake", false);
    let baseline = state.gauge_snapshot(None::<()>);
    assert_eq!(baseline.dead_edges_total, 0);
    assert_eq!(baseline.dead_attributions_total, 0);
    assert_eq!(baseline.arena_slack_total, 0);
    assert_eq!(baseline.unsourced_edges_total, 0);
    assert_eq!(weight_total(&baseline), 0.0);

    let slack = "Aomine".len() as u64;
    let stats =
        ContextStats { dead_edges: 1, dead_attributions: 1, arena_slack: slack, unsourced_edges: 1, unsourced_weight: 2.5f64.to_bits(), ..ContextStats::default() };
    hold(&mut state, "sake", stats, 500);
    let hot = state.gauge_snapshot(None::<()>);
    assert_eq!(hot.dead_edges_total, 1);
    assert_eq!(hot.dead_attributions_total, 1);
    assert_eq!(hot.arena_slack_total, slack);
    assert_eq!(hot.unsourced_edges_total, 1);
    assert_eq!(weight_total(&hot), 2.5);
    assert_eq!(hot.contexts_resident, 1);

    assert!(evict(&mut state, "sake"));
    let cold = state.gauge_snapshot(None::<()>);
    assert_eq!(cold.contexts_resident, 0);
    assert_eq!(cold.dead_edges_total, hot.dead_edges_total);
    assert_eq!(cold.dead_attributions_total, hot.dead_attributions_total);
    assert_eq!(cold.arena_slack_total, hot.arena_slack_total);
    assert_eq!(cold.unsourced_edges_total, hot.unsourced_edges_total);
    assert_eq!(weight_total(&cold), weight_total(&hot));
}

fn row<'a>(snapshot: &'a GaugeSnapshot<()>, name: &str) -> &'a ContextGaugeRow {
    snapshot.per_context.iter().find(|row| row.name == name).unwrap()
}

#[test]
fn per_context_gauges_measure_at_flush_and_cut_top_n_by_disk() {
    let mut state = boot(PerContextMetrics::All);
    create(&mut state, "big", false);
    create(&mut state, "small", true);
    hold(&mut state, "big", ContextStats { associations: 200, sources: 1, ..ContextStats::default() }, 9000);
    hold(&mut state, "small", ContextStats { associations: 1, ..ContextStats::default() }, 90);

    let before = state.gauge_snapshot(None::<()>);
    assert_eq!(before.per_context.len(), 2);
    let big = row(&before, "big");
    assert_eq!(big.disk_image_bytes, 0);
    assert_eq!(big.associations, 200);
    assert_eq!(big.sources, 1);
    assert!(big.resident_bytes > 0);
    assert!(!big.pinned);
    assert!(row(&before, "small").pinned);

    for handle in state.refresh_disk_usage() {
        let lengths = if handle.name == "big" { [8000, 0, 120, 0, 0, 0, 0] } else { [80, 0, 100, 0, 0, 0, 0] };
        state.disk_refreshed(&handle.name, handle.serial, disk_usage_of(lengths));
    }
    let after = state.gauge_snapshot(None::<()>);
    assert_eq!(row(&after, "big").disk_image_bytes, 8000);
    assert!(row(&after, "big").disk_sidecar_bytes > 0, "the meta sidecar has bytes");
    assert!(
        row(&after, "big").disk_total_bytes() > row(&after, "small").disk_total_bytes(),
        "200 associations outweigh 1"
    );

    assert!(evict(&mut state, "big"));
    state.options.per_context_metrics = PerContextMetrics::Top(1);
    let snapshot = state.gauge_snapshot(None::<()>);
    assert_eq!(snapshot.per_context.len(), 1, "Top(1) cut to one row");
    let row = &snapshot.per_context[0];
    assert_eq!(row.name, "big");
    assert_eq!(row.associations, 200, "cold counts read the sidecar");
    assert_eq!(row.resident_bytes, 0, "a cold context holds nothing");
    assert!(row.disk_image_bytes > 0, "the sweep seeded disk sizes");
}

#[test]
fn the_cut_breaks_ties_by_name_and_comes_back_in_name_order() {
    let mut state = boot(PerContextMetrics::Top(2));
    for name in ["c", "b", "a"] {
        create(&mut state, name, false);
    }
    state.registry.get_mut("c").unwrap().wal_bytes = 10;
    let names: Vec<String> = state.gauge_snapshot(None::<()>).per_context.into_iter().map(|row| row.name).collect();
    assert_eq!(names, ["a", "c"]);
    state.options.per_context_metrics = PerContextMetrics::Off;
    assert!(state.gauge_snapshot(None::<()>).per_context.is_empty());
    assert!(state.refresh_disk_usage().is_empty(), "nothing reads the sizes");
}

#[test]
fn a_storage_quota_alone_keeps_the_disk_sweep_alive_and_shows_in_the_row() {
    let mut quotas = NameMap::new();
    quotas.insert("sake".to_string(), ContextQuota { storage_bytes: Some(5), cache_bytes: None });
    let mut state = AppState::new(options(PerContextMetrics::Off), quotas, None, 0, None);
    create(&mut state, "sake", false);
    assert_eq!(state.refresh_disk_usage().len(), 1);
    state.options.per_context_metrics = PerContextMetrics::All;
    let snapshot = state.gauge_snapshot(None::<()>);
    assert_eq!(snapshot.per_context[0].quota_storage_bytes, Some(5));
    assert_eq!(snapshot.per_context[0].quota_cache_bytes, None);
    assert_eq!(snapshot.contexts_registered, 1);
    assert_eq!(state.context_count(), 1);
}

#[test]
fn a_size_on_disk_is_the_sum_of_its_files() {
    assert_eq!(
        disk_files("sake"),
        [
            "sake.ctx",
            "sake.passages.bin",
            "sake.meta.json",
            "sake.sources.json",
            "sake.vectors.bin",
            "sake.pvectors.bin",
            "sake.bm25.bin",
        ]
    );
    assert_eq!(
        disk_usage_of([1, 2, 3, 4, 5, 6, 7]),
        ContextDiskUsage { image_bytes: 1, passages_bytes: 2, sidecar_bytes: 25 }
    );
    assert_eq!(disk_usage_of([0, 0, u64::MAX, 1, 0, 0, 0]).sidecar_bytes, u64::MAX);
}

fn store(state: &mut AppState, name: &str, footprint: u64, pending: u64, watermark: u64) {
    let ticket = match state.store_passages(name) {
        Some(Ok(ticket)) => ticket,
        _ => panic!("the batch must be admitted"),
    };
    let outcome = StoreOutcome { facts: StoreFacts { footprint, pending_log_bytes: pending }, watermark };
    assert!(state.passages_stored(&ticket, &Vec::new(), Ok(outcome)).is_ok());
}

#[test]
fn cache_budget_accounts_for_resident_passage_text() {
    let mut state = boot(PerContextMetrics::Off);
    create(&mut state, "sake", false);
    let before = state.gauge_snapshot(None::<()>).resident_bytes;
    let text = "あ".repeat(300_000);
    store(&mut state, "sake", text.len() as u64, 1, 1);
    let after = state.gauge_snapshot(None::<()>).resident_bytes;
    assert!(after >= before + 900_000, "before {before}, after {after}");
}

#[test]
fn passages_wal_bytes_stays_correct_after_eviction() {
    let mut state = boot(PerContextMetrics::Off);
    create(&mut state, "sake", false);
    store(&mut state, "sake", 40, 60, 1);
    assert!(
        state.gauge_snapshot(None::<()>).passages_wal_bytes > 0,
        "a freshly written passage log must show up as pending"
    );
    assert!(evict(&mut state, "sake"));
    assert_eq!(
        state.gauge_snapshot(None::<()>).passages_wal_bytes,
        0,
        "eviction compacts the log, and the gauge must reflect that while cold"
    );
}

#[test]
fn the_breaker_rides_the_snapshot() {
    let state = boot(PerContextMetrics::Off);
    assert_eq!(state.gauge_snapshot(Some("half open")).embed_breaker, Some("half open"));
    assert_eq!(state.gauge_snapshot(None::<u64>).embed_breaker, None);
}
