//! What tailing the writer's files does to a replica's registry.
use registry::groups::GroupRecord;
use registry::names::{NameMap, NameSet};
use registry::paths::{file_stem, name_from_stem};
use registry::replication::{LogStat, ScannedGroup};
use registry::retrieval_cache::{ContextRevision, RetrievalCacheOp, RetrievalKey};
use registry::state::{
    AppState, ContextMeta, ContextStats, LoadFailure, MetaFile, Options, PerContextMetrics, ReplicaInfo, Slot, StoreFacts,
};

fn options() -> Options {
    Options {
        cache_bytes: u64::MAX,
        wal_enabled: true,
        wal_max_bytes: 0,
        per_context_metrics: PerContextMetrics::Off,
        load_retry: 30,
        max_group_members: 100,
        embed_passages: false,
        embedding_model: None,
        semantic_floor: 0,
    }
}

fn boot() -> AppState {
    AppState::new(options(), NameMap::new(), None, 100_000, None)
}

fn boot_replica() -> AppState {
    AppState::new(options(), NameMap::new(), Some(ReplicaInfo { writer: "writer".to_string() }), 100_000, None)
}

fn create(state: &mut AppState, name: &str) {
    assert!(state.create(name).is_ok());
    assert!(state.settle_created(name, ContextMeta::default(), Ok((ContextStats::default(), 100))).is_ok());
}

fn key(state: &AppState) -> RetrievalKey {
    state
        .retrieval_key(RetrievalCacheOp::Recall, &vec!["sake".to_string()], Some("params".to_string()))
        .expect("a live context keys")
}

#[test]
fn a_replica_refresh_mints_a_fresh_cache_identity_under_unmoved_revisions() {
    let mut state = boot();
    create(&mut state, "sake");
    let before = key(&state);
    state.replica_refresh("sake", MetaFile::default(), LogStat::Missing, LogStat::Missing);
    let after = key(&state);
    assert_eq!(before.targets[0].lanes, after.targets[0].lanes, "the refresh moved no revision lane");
    assert_ne!(
        before.targets[0].identity, after.targets[0].identity,
        "the identity is re-minted, so the old key can never hit again"
    );
}

#[test]
fn a_replica_refresh_restats_both_wal_gauges() {
    let mut state = boot();
    create(&mut state, "sake");
    let tailed = b"{\"tailed\":1}\n".len() as u64;
    state.replica_refresh("sake", MetaFile::default(), LogStat::Length(tailed), LogStat::Length(tailed));
    let entry = state.registry.get("sake").unwrap();
    assert_eq!(entry.wal_bytes, tailed);
    assert_eq!(entry.passages_wal_bytes, tailed);

    state.replica_refresh("sake", MetaFile::default(), LogStat::Missing, LogStat::Missing);
    let entry = state.registry.get("sake").unwrap();
    assert_eq!(entry.wal_bytes, 0);
    assert_eq!(entry.passages_wal_bytes, 0);

    state.replica_refresh("sake", MetaFile::default(), LogStat::Length(tailed), LogStat::Length(tailed));
    let entry = state.registry.get("sake").unwrap();
    let before = (entry.wal_bytes, entry.passages_wal_bytes);
    assert_ne!(before, (0, 0));
    state.replica_refresh("sake", MetaFile::default(), LogStat::Unknown, LogStat::Unknown);
    let entry = state.registry.get("sake").unwrap();
    assert_eq!((entry.wal_bytes, entry.passages_wal_bytes), before);
}

#[test]
fn a_replica_refresh_of_a_hot_entry_bumps_the_image_generation() {
    let mut state = boot();
    create(&mut state, "sake");
    let generation = state.registry.get("sake").unwrap().image_generation;
    state.replica_refresh("sake", MetaFile::default(), LogStat::Missing, LogStat::Missing);
    let entry = state.registry.get("sake").unwrap();
    assert!(!matches!(entry.slot, Slot::Hot(_)), "the refresh cools the slot");
    assert_eq!(entry.image_generation, generation + 1, "one refresh of a hot entry, one generation");
    state.replica_refresh("sake", MetaFile::default(), LogStat::Missing, LogStat::Missing);
    assert_eq!(state.registry.get("sake").unwrap().image_generation, generation + 1, "a cold one has none to drop");
}

#[test]
fn a_refresh_drops_what_is_resident_and_never_walks_back() {
    let mut state = boot();
    create(&mut state, "sake");
    {
        let entry = state.registry.get_mut("sake").unwrap();
        entry.graph_revision = 5;
        entry.passage_revision = 6;
        entry.config_revision = 7;
        entry.passages = Some(StoreFacts { footprint: 10, pending_log_bytes: 3 });
        entry.bm25 = Some(4);
        entry.bm25_dirty = true;
        entry.load_failure = Some(LoadFailure { message: "old".to_string(), at: 0 });
        entry.passages_load_failure = Some(LoadFailure { message: "old".to_string(), at: 0 });
    }
    let mut file = MetaFile::default();
    file.revision = ContextRevision { graph: 9, passages: 2, config: 7 };
    file.meta.pinned = true;
    file.schema_digest = Some("abc".to_string());
    assert!(state.replica_refresh("sake", file, LogStat::Missing, LogStat::Missing), "pinned means resident");
    let entry = state.registry.get("sake").unwrap();
    assert_eq!((entry.graph_revision, entry.passage_revision, entry.config_revision), (9, 6, 7));
    assert!(entry.passages.is_none() && entry.bm25.is_none() && !entry.bm25_dirty);
    assert!(entry.load_failure.is_none() && entry.passages_load_failure.is_none());
    assert_eq!(entry.schema_digest.as_deref(), Some("abc"));
    assert!(!state.replica_refresh("nope", MetaFile::default(), LogStat::Missing, LogStat::Missing));
}

fn set(names: &[&str]) -> NameSet {
    NameSet::of(&names.iter().map(|n| n.to_string()).collect())
}

fn record(description: &str, contexts: &[&str], groups: &[&str]) -> GroupRecord {
    GroupRecord { description: description.to_string(), contexts: set(contexts), groups: set(groups) }
}

fn file(name: &str, record: Option<GroupRecord>) -> ScannedGroup {
    ScannedGroup { name: name.to_string(), record }
}

#[test]
fn a_replica_reload_serves_the_group_files_on_disk() {
    let mut state = boot_replica();
    assert!(state.is_replica(), "the replica boot must read as one");
    assert_eq!(state.replica().unwrap().writer, "writer");
    state.replica_reload_groups(vec![file("kura", Some(record("蔵まとめ", &["sake"], &[])))]);
    let (_, groups) = state.group_page(None, usize::MAX);
    assert_eq!(groups.len(), 1);
    assert_eq!(groups[0].0, "kura");
    assert_eq!(groups[0].1.contexts.len(), 1);
}

#[test]
fn a_replica_reload_drops_a_dangling_child_reference_before_repair() {
    let mut state = boot_replica();
    state.replica_reload_groups(vec![file("parent", Some(record("parent", &[], &["child"])))]);
    let (_, groups) = state.group_page(None, usize::MAX);
    assert_eq!(groups.len(), 1);
    assert_eq!(groups[0].0, "parent");
    assert!(groups[0].1.groups.is_empty(), "the dangling child reference must be dropped");
}

#[test]
fn a_replica_reload_leaves_a_never_seen_unparseable_group_absent() {
    let mut state = boot_replica();
    state.replica_reload_groups(vec![file("kura", Some(record("蔵まとめ", &[], &[])))]);
    assert_eq!(state.group_page(None, usize::MAX).1.len(), 1);
    state.replica_reload_groups(vec![file("kura", Some(record("蔵まとめ", &[], &[]))), file("brandnew", None)]);
    let (_, groups) = state.group_page(None, usize::MAX);
    assert_eq!(groups.len(), 1, "the never-seen unparseable group must stay absent");
    assert_eq!(groups[0].0, "kura", "the sibling with a good record survives");
}

#[test]
fn a_torn_group_file_keeps_its_previous_record() {
    let mut state = boot_replica();
    state.replica_reload_groups(vec![
        file("kura", Some(record("蔵まとめ", &["sake"], &[]))),
        file("all", Some(record("all", &[], &["kura"]))),
    ]);
    state.replica_reload_groups(vec![file("kura", None), file("all", Some(record("all", &[], &["kura"])))]);
    let (_, groups) = state.group_page(None, usize::MAX);
    assert_eq!(groups.len(), 2);
    assert!(groups[0].1.groups.contains("kura"), "the child is still there");
    assert_eq!(groups[1].1.description, "蔵まとめ");
}

#[test]
fn a_reload_untangles_a_cycle() {
    let mut state = boot_replica();
    state.replica_reload_groups(vec![
        file("a", Some(record("", &[], &["b"]))),
        file("b", Some(record("", &[], &["a"]))),
    ]);
    let (_, groups) = state.group_page(None, usize::MAX);
    assert!(groups[0].1.groups.contains("b"), "the first edge in name order stays");
    assert!(groups[1].1.groups.is_empty());
}

fn landed(description: &str) -> MetaFile {
    let mut file = MetaFile::default();
    file.meta.description = description.to_string();
    file
}

#[test]
fn a_replica_register_adds_a_new_context_from_its_landed_meta() {
    let mut state = boot_replica();
    assert!(!state.registry.contains("sake"), "nothing registered before the tailer touches it");
    let stem = file_stem("sake");
    state.replica_register(&stem, landed("sake"));
    assert_eq!(state.registry.get("sake").expect("the stem must register").meta.description, "sake");
    let serial = state.registry.get("sake").unwrap().serial;

    state.replica_register(&stem, landed("other"));
    assert_eq!(state.registry.get("sake").unwrap().serial, serial, "a second registration replaces nothing");
    assert_eq!(state.registry.get("sake").unwrap().meta.description, "sake");
}

#[test]
fn a_replica_register_ignores_an_undecodable_stem() {
    let mut state = boot_replica();
    state.replica_register("not a valid stem at all", MetaFile::default());
    assert_eq!(state.group_page(None, usize::MAX).1.len(), 0);
    assert_eq!(state.context_count(), 0);
}

#[test]
fn a_stem_that_encodes_no_name_registers_nothing() {
    let mut state = boot_replica();
    for stem in ["%", "%4", "%zz", "%FF", "%+A", "a b", "a.b", "\u{9152}"] {
        assert!(name_from_stem(stem).is_none(), "{stem}");
        state.replica_register(stem, MetaFile::default());
    }
    assert_eq!(state.context_count(), 0);
}

#[test]
fn a_stem_is_read_with_digits_of_either_case() {
    assert_eq!(name_from_stem("a%2Fb").as_deref(), Some("a/b"));
    assert_eq!(name_from_stem("a%2fb").as_deref(), Some("a/b"));
    assert_eq!(name_from_stem("%41").as_deref(), Some("A"));
    assert_eq!(name_from_stem(&file_stem("a/b \u{9152}")).as_deref(), Some("a/b \u{9152}"));
}

#[test]
fn a_replica_deregister_removes_a_registered_context() {
    let mut state = boot_replica();
    state.replica_register(&file_stem("sake"), landed("sake"));
    assert!(state.registry.contains("sake"));
    state.replica_deregister("sake");
    assert!(!state.registry.contains("sake"), "the lineage no longer carrying this context must drop it in memory");
    state.replica_deregister("never-registered");
}
