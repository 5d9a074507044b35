//! Stored passages: quotas, windows, citations and markers.
use registry::family::deletion_files;
use registry::names::{NameMap, NameSet};
use registry::passages::{
    eligible_sources, merge_passages, CitationLookup, LoadedPassages, Locator, Paragraph, PassageRecord, PassageStore,
    PassagesWriteError, SourceFilter, SourceMeta, StoreOutcome,
};
use registry::paths::{file_stem, passages_path, passages_wal_path, sources_path};
use registry::residency::EvictStep;
use registry::state::{
    AppState, ChangeKind, ContextMeta, ContextQuota, ContextStats, IoFault, Options, PerContextMetrics, StoreFacts,
};

fn boot(quotas: NameMap<ContextQuota>) -> AppState {
    let options = Options {
        cache_bytes: u64::MAX,
        wal_enabled: true,
        wal_max_bytes: 0,
        per_context_metrics: PerContextMetrics::Off,
        load_retry: 30,
        max_group_members: 100,
        embed_passages: false,
        embedding_model: None,
        semantic_floor: 0,
    };
    AppState::new(options, quotas, None, 0, None)
}

fn create(state: &mut AppState, name: &str) {
    assert!(state.create(name).is_ok());
    assert!(state.settle_created(name, ContextMeta::default(), Ok((ContextStats::default(), 0))).is_ok());
}

fn sake() -> AppState {
    let mut state = boot(NameMap::new());
    create(&mut state, "sake");
    state
}

fn meta() -> SourceMeta {
    SourceMeta { stored_at: None, date: None, tags: Vec::new() }
}

fn dated(date: u64) -> SourceMeta {
    SourceMeta { date: Some(date), ..meta() }
}

fn record(text: &str, meta: SourceMeta) -> PassageRecord {
    let paragraphs = text
        .split("\n\n")
        .map(|part| Paragraph { hash: part.len() as u64, text: part.to_string(), normalized: part.to_lowercase() })
        .collect();
    PassageRecord {
        text: text.to_string(),
        paragraphs,
        sections: Vec::new(),
        locators: Vec::new(),
        questions: Vec::new(),
        meta,
    }
}

fn store(list: Vec<(&str, PassageRecord)>) -> PassageStore {
    let mut store: PassageStore = NameMap::new();
    for (source, content) in list {
        store.insert(source.to_string(), content);
    }
    store
}

fn unreadable() -> IoFault {
    IoFault { not_found: false, message: "not json".to_string() }
}

fn outcome(footprint: u64, pending: u64, watermark: u64) -> StoreOutcome {
    StoreOutcome { facts: StoreFacts { footprint, pending_log_bytes: pending }, watermark }
}

fn batch() -> Vec<String> {
    vec!["a.md".to_string(), "b.md".to_string()]
}

fn window(since: Option<u64>, until: Option<u64>) -> SourceFilter {
    SourceFilter { tagged: None, since, until }
}

#[test]
fn passages_store_lookup_and_survive_restart() {
    let mut state = sake();
    let loaded = store(vec![("第1段落", record("青嶺酒造は、雲居県霧沢町にある日本酒の蔵元である。", meta()))]);
    let ticket = state.store_passages("sake").unwrap().ok().unwrap();
    let stored = state.passages_stored(&ticket, &vec!["第1段落".to_string()], Ok(outcome(10, 20, 1)));
    assert_eq!(stored.ok().unwrap().len(), 1);
    let asked = vec!["第1段落".to_string(), "第9段落".to_string()];
    let (passages, missing) = state.lookup_passages("sake", Ok(&loaded), &asked).unwrap().ok().unwrap();
    assert!(passages.get("第1段落").unwrap().starts_with("青嶺酒造は"));
    assert_eq!(missing, ["第9段落"]);
    assert_eq!(state.passage_sources("sake", Ok(&loaded)).unwrap().ok().unwrap(), ["第1段落"]);
    assert!(state.lookup_passages("nope", Ok(&loaded), &Vec::new()).is_none());
    assert!(state.passage_sources("nope", Ok(&loaded)).is_none());

    // A deletion takes the whole passage file family along.
    let stem = file_stem("sake");
    let removed = deletion_files("sake", &stem, &Vec::new(), &Vec::new());
    for path in [sources_path(&stem), passages_path(&stem), passages_wal_path(&stem)] {
        assert!(removed.contains(&path), "{path}");
    }
}

#[test]
fn a_passage_write_racing_a_delete_backs_off_at_the_tombstone() {
    let mut state = sake();
    let ticket = state.store_passages("sake").unwrap().ok().unwrap();
    assert!(state.delete("sake").unwrap().is_ok());
    assert!(state.settle_deleted("sake", Ok(())).is_ok());
    assert!(!state.is_live("sake", ticket.serial), "a handle from before the delete must see the tombstone");
    assert!(state.store_passages("sake").is_none(), "the name is gone; nothing may recreate it");
    create(&mut state, "sake");
    let late = state.passages_stored(&ticket, &batch(), Ok(outcome(10, 20, 1)));
    assert!(late.ok().unwrap().is_empty(), "nothing is announced of a context that is gone");
    assert!(state.registry.get("sake").unwrap().passages.is_none(), "the new generation holds nothing of the old");
}

#[test]
fn eviction_drops_resident_passages_and_a_later_lookup_still_answers() {
    let mut state = sake();
    let ticket = state.store_passages("sake").unwrap().ok().unwrap();
    assert!(state.passages_stored(&ticket, &batch(), Ok(outcome(100, 20, 1))).is_ok());
    assert!(state.registry.get("sake").unwrap().passages.is_some());
    assert!(state.compaction_due("sake", ticket.serial));
    assert!(matches!(state.evict_entry("sake", ticket.serial), EvictStep::Cooled));
    assert!(state.evict_residents("sake", ticket.serial, 20).freed);
    assert!(
        state.registry.get("sake").unwrap().passages.is_none(),
        "eviction must drop the resident passage store"
    );
    assert!(!state.compaction_due("sake", ticket.serial));
    let loaded = store(vec![("第1段落", record("仕込み水は雲居山の伏流水。", meta()))]);
    let (found, missing) =
        state.lookup_passages("sake", Ok(&loaded), &vec!["第1段落".to_string()]).unwrap().ok().unwrap();
    assert!(found.get("第1段落").unwrap().starts_with("仕込み水"));
    assert!(missing.is_empty());
}

#[test]
fn window_source_names_joins_metadata_and_feeds_windowed_reads() {
    let state = sake();
    let loaded = store(vec![
        ("doc-old", record("旧杜氏は高瀬。", dated(100))),
        ("doc-new", record("新杜氏は青山。", dated(200))),
    ]);
    let after = window(Some(150), None);
    let eligible = state.window_source_names("sake", Ok(&loaded), &after).unwrap().ok().unwrap();
    assert_eq!(eligible.names(), ["doc-new"], "the join admits exactly the in-window, dated sources");
    assert!(state.window_source_names("nope", Ok(&loaded), &after).is_none(), "an unknown context is None");
    let before = window(None, Some(200));
    let eligible = state.window_source_names("sake", Ok(&loaded), &before).unwrap().ok().unwrap();
    assert_eq!(eligible.names(), ["doc-old"]);

    let times = state.source_effective_times("sake", Ok(&loaded)).unwrap().ok().unwrap();
    assert_eq!(times.get("doc-old"), Some(&100));
    assert_eq!(times.get("doc-new"), Some(&200));
    assert!(!times.contains("doc-undated"));
    assert!(state.source_effective_times("nope", Ok(&loaded)).is_none());
    assert!(matches!(state.window_source_names("sake", Err(unreadable()), &after), Some(Err(_))));
    assert!(matches!(state.source_effective_times("sake", Err(unreadable())), Some(Err(_))));
}

#[test]
fn concurrent_store_passages_calls_serialize_at_the_quota_gate() {
    let mut quotas = NameMap::new();
    quotas.insert("sake".to_string(), ContextQuota { storage_bytes: Some(1), cache_bytes: None });
    let mut state = boot(quotas);
    create(&mut state, "sake");
    let mut successes = 0;
    let mut refusals = 0;
    for _ in 0..2 {
        match state.store_passages("sake").unwrap() {
            Ok(ticket) => {
                assert!(state.passages_stored(&ticket, &batch(), Ok(outcome(10, 20, 1))).is_ok());
                successes += 1;
            }
            Err(PassagesWriteError::QuotaExceeded(message)) => {
                assert!(message.contains("20 of 1 bytes"), "{message}");
                refusals += 1;
            }
            Err(PassagesWriteError::Io(_)) => unreachable!("nothing failed"),
        }
    }
    assert_eq!((successes, refusals), (1, 1), "exactly one of two first writes past a one-byte ceiling lands");
    assert_eq!(state.metrics().storage_quota_refusals, 1);
}

fn sectioned() -> PassageStore {
    let mut content = record("第1段落。\n\n第2段落。", meta());
    content.sections.push((1, "はじめに".to_string()));
    content.locators.push((0, Locator { kind: "page".to_string(), value: "1".to_string() }));
    store(vec![("doc", content)])
}

#[test]
fn citation_reports_found_unknown_source_and_out_of_range_index() {
    let state = sake();
    let loaded = sectioned();
    let Some(Ok(CitationLookup::Found { text, section, locator })) = state.citation("sake", Ok(&loaded), "doc", 0) else {
        panic!("index 0 must resolve");
    };
    assert_eq!(text, "第1段落。");
    assert!(section.is_none(), "before the first section marker");
    let locator = locator.unwrap();
    assert_eq!((locator.kind.as_str(), locator.value.as_str()), ("page", "1"));

    let Some(Ok(CitationLookup::Found { text, section, locator })) = state.citation("sake", Ok(&loaded), "doc", 1) else {
        panic!("index 1 must resolve");
    };
    assert_eq!(text, "第2段落。");
    assert_eq!(section.as_deref(), Some("はじめに"));
    assert!(locator.is_none(), "a locator does not extend past its own paragraph");

    assert!(matches!(state.citation("sake", Ok(&loaded), "nope", 0), Some(Ok(CitationLookup::UnknownSource))));
    assert!(matches!(state.citation("sake", Ok(&loaded), "doc", 99), Some(Ok(CitationLookup::IndexOutOfRange))));
    assert!(state.citation("nazo", Ok(&loaded), "doc", 0).is_none(), "an unknown context is the outer None");
}

#[test]
fn citation_reports_a_load_failure_as_err() {
    let state = sake();
    assert!(matches!(state.citation("sake", Err(unreadable()), "doc", 0), Some(Err(_))));
    assert!(matches!(state.lookup_passages("sake", Err(unreadable()), &Vec::new()), Some(Err(_))));
    assert!(matches!(state.passage_sources("sake", Err(unreadable())), Some(Err(_))));
    assert!(matches!(state.passage_source_entries("sake", Err(unreadable())), Some(Err(_))));
}

#[test]
fn resolve_markers_only_maps_keys_that_actually_carry_a_marker() {
    let state = sake();
    let mut loaded = sectioned();
    loaded.get_mut("doc").unwrap().locators.clear();
    assert!(state.resolve_markers("sake", Ok(&loaded), &Vec::new()).is_empty());
    assert!(
        state.resolve_markers("no-such-context", Ok(&loaded), &vec![("doc".to_string(), 0)]).is_empty(),
        "a non-empty iterator against an unknown context degrades to empty"
    );
    let keys = vec![("doc".to_string(), 1), ("doc".to_string(), 0), ("nope".to_string(), 0)];
    let resolved = state.resolve_markers("sake", Ok(&loaded), &keys);
    assert_eq!(resolved.len(), 1, "only the keyed marker survives");
    let (key, markers) = &resolved[0];
    assert_eq!(key, &("doc".to_string(), 1));
    assert_eq!(markers.section.as_deref(), Some("はじめに"));
    assert!(markers.locator.is_none());
}

#[test]
fn resolve_markers_degrades_to_an_empty_map_on_a_load_failure() {
    let state = sake();
    assert!(state.resolve_markers("sake", Err(unreadable()), &vec![("doc".to_string(), 0)]).is_empty());
}

#[test]
fn passage_source_entries_pairs_ids_with_their_metadata() {
    let state = sake();
    let tagged = SourceMeta { stored_at: None, date: Some(1_700_000_000), tags: vec!["tag-a".to_string()] };
    let loaded = store(vec![("doc", record("本文。", tagged))]);
    let entries = state.passage_source_entries("sake", Ok(&loaded)).unwrap().ok().unwrap();
    assert_eq!(entries.len(), 1);
    assert_eq!(entries[0].0, "doc");
    assert_eq!(entries[0].1.date, Some(1_700_000_000));
    assert_eq!(entries[0].1.tags, ["tag-a"]);
    assert!(state.passage_source_entries("nazo", Ok(&loaded)).is_none());
}

#[test]
fn adjacent_windows_split_the_dated_sources() {
    let loaded = store(vec![
        ("a", record("a", dated(99))),
        ("b", record("b", dated(100))),
        ("c", record("c", SourceMeta { stored_at: Some(101), ..meta() })),
        ("undated", record("d", meta())),
    ]);
    assert_eq!(eligible_sources(&loaded, &window(None, Some(100))).names(), ["a"]);
    assert_eq!(eligible_sources(&loaded, &window(Some(100), None)).names(), ["b", "c"]);
    assert_eq!(eligible_sources(&loaded, &window(None, None)).names(), ["a", "b", "c", "undated"]);
    let tagged = NameSet::of(&vec!["c".to_string(), "undated".to_string()]);
    let filter = SourceFilter { tagged: Some(tagged), since: None, until: None };
    assert_eq!(eligible_sources(&loaded, &filter).names(), ["c", "undated"]);
}

#[test]
fn headings_extend_to_the_next_and_the_later_of_two_wins() {
    let state = sake();
    let mut content = record("p0\n\np1\n\np2\n\np3", meta());
    content.sections.push((2, "second".to_string()));
    content.sections.push((1, "first".to_string()));
    content.sections.push((2, "second again".to_string()));
    let loaded = store(vec![("doc", content)]);
    let section = |index| match state.citation("sake", Ok(&loaded), "doc", index) {
        Some(Ok(CitationLookup::Found { section, .. })) => section,
        _ => panic!("it is there"),
    };
    assert_eq!(section(0), None);
    assert_eq!(section(1).as_deref(), Some("first"));
    assert_eq!(section(2).as_deref(), Some("second again"));
    assert_eq!(section(3).as_deref(), Some("second again"));
}

#[test]
fn a_failed_batch_leaves_the_passage_revision_alone_and_later_ones_only_raise_it() {
    let mut state = sake();
    let ticket = state.store_passages("sake").unwrap().ok().unwrap();
    let failed = state.passages_stored(&ticket, &batch(), Err(unreadable()));
    assert!(matches!(failed, Err(PassagesWriteError::Io(fault)) if fault.message == "not json"));
    assert_eq!(state.registry.get("sake").unwrap().passage_revision, 0);
    let changes = state.passages_stored(&ticket, &batch(), Ok(outcome(10, 20, 7))).ok().unwrap();
    assert_eq!(changes.len(), 2);
    assert!(matches!(&changes[0], ChangeKind::SourceStored { source } if source == "a.md"));
    assert!(matches!(&changes[1], ChangeKind::SourceStored { source } if source == "b.md"));
    assert_eq!(state.registry.get("sake").unwrap().passage_revision, 7);
    assert!(state.passages_stored(&ticket, &batch(), Ok(outcome(10, 20, 3))).is_ok());
    assert_eq!(state.registry.get("sake").unwrap().passage_revision, 7);
    assert!(state.registry.get("sake").unwrap().passages_embed_dirty);
}

#[test]
fn a_batch_adds_its_sources_and_replaces_what_it_names() {
    let mut state = boot(NameMap::new());
    create(&mut state, "sake");
    let mut held = store(vec![("a", record("old a", meta())), ("b", record("old b", meta()))]);
    merge_passages(&mut held, store(vec![("b", record("new b", meta())), ("c", record("new c", meta()))]));
    assert_eq!(state.passage_sources("sake", Ok(&held)).unwrap().ok().unwrap(), ["a", "b", "c"]);
    let asked = vec!["a".to_string(), "b".to_string(), "c".to_string()];
    let (texts, missing) = state.lookup_passages("sake", Ok(&held), &asked).unwrap().ok().unwrap();
    assert!(missing.is_empty());
    assert_eq!(texts.get("a").unwrap(), "old a");
    assert_eq!(texts.get("b").unwrap(), "new b");
    assert_eq!(texts.get("c").unwrap(), "new c");
}

/// A data directory that holds one store, whose log may be broken.
struct Files {
    store: PassageStore,
    broken: bool,
    reads: usize,
}

impl Files {
    fn read(&mut self) -> Result<LoadedPassages, IoFault> {
        self.reads += 1;
        if self.broken {
            return Err(IoFault { not_found: false, message: "corrupt line 1".to_string() });
        }
        Ok(LoadedPassages { facts: StoreFacts { footprint: 10, pending_log_bytes: 20 }, watermark: 7 })
    }

    /// A lookup as a request makes it: the store is loaded where it has to
    /// be, and may be.
    fn lookup(
        &mut self,
        state: &mut AppState,
        sources: &Vec<String>,
        now: u64,
    ) -> Option<Result<(NameMap<String>, Vec<String>), IoFault>> {
        let read = if state.passages_need_load("sake", now) {
            self.read()
        } else {
            Err(IoFault { not_found: true, message: "nothing was read".to_string() })
        };
        let loaded = state.entry_passages("sake", read, now).expect("registered").map(|()| &self.store);
        state.lookup_passages("sake", loaded, sources)
    }
}

#[test]
fn a_failed_passage_load_is_quarantined_like_the_image() {
    let mut state = sake();
    let mut files = Files { store: store(vec![("a.md", record("本文。", meta()))]), broken: true, reads: 0 };
    let sources = vec!["a.md".to_string()];
    let first = files.lookup(&mut state, &sources, 100).expect("registered").err().unwrap();
    assert!(!first.message.contains("quarantined"), "{}", first.message);

    files.broken = false;
    let second = files.lookup(&mut state, &sources, 129).expect("registered").err().unwrap();
    assert!(second.message.contains("quarantined"), "{}", second.message);
    assert_eq!(files.reads, 1, "the remembered refusal answers without a read");

    let (passages, missing) = files.lookup(&mut state, &sources, 130).expect("registered").ok().unwrap();
    assert!(missing.is_empty());
    assert_eq!(passages.get("a.md").unwrap(), "本文。");
    let entry = state.registry.get("sake").unwrap();
    assert!(entry.passages_load_failure.is_none());
    assert_eq!(entry.passage_revision, 7, "a store that was loaded knows the revision it reached");
    assert!(files.lookup(&mut state, &sources, 131).unwrap().is_ok());
    assert_eq!(files.reads, 2, "a resident store is not read again");
    assert!(state.entry_passages("nope", files.read(), 0).is_none());
}
