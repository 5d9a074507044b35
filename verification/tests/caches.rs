//! The exact and the semantic retrieval tier.
use registry::names::NameMap;
use registry::query_guard::queries_agree;
use registry::retrieval::SemanticFill;
use registry::retrieval_cache::{
    op_lanes, slot_cost, CachedRetrieval, ContextRevision, RetrievalCache, RetrievalCacheOp, RetrievalKey, TargetFingerprint,
};
use registry::semantic_cache::{Candidate, SemanticBucket, SemanticCache, SEMANTIC_CACHE_CAP};
use registry::state::{AppState, ContextMeta, ContextStats, Options, PerContextMetrics};

fn key(params: &str) -> RetrievalKey {
    RetrievalKey {
        op: RetrievalCacheOp::Recall,
        targets: vec![TargetFingerprint { name: "c".to_string(), identity: 1, lanes: (0, 0) }],
        params: params.to_string(),
    }
}

fn value(payload_bytes: usize) -> CachedRetrieval {
    CachedRetrieval {
        payload: format!("\"{}\"", "x".repeat(payload_bytes)),
        target_empty: vec![false],
        lane_hits: (0, 0, 0),
        log_hits: 1,
        log_top_score: 0.0f32.to_bits(),
    }
}

#[test]
fn eviction_drops_the_least_recently_used_entry_and_keeps_the_bytes_honest() {
    let cost = slot_cost(&key("a"), &value(400));
    let mut cache = RetrievalCache::new(cost * 4 + cost / 2);
    for params in ["a", "b", "c", "d"] {
        cache.insert(key(params), value(400));
    }
    assert_eq!(cache.len(), 4);
    for touched in ["a", "c", "d"] {
        assert!(cache.lookup(&key(touched)).is_some());
    }
    cache.insert(key("e"), value(400));
    assert!(cache.lookup(&key("b")).is_none(), "stalest entry evicted");
    for live in ["a", "c", "d", "e"] {
        assert!(cache.lookup(&key(live)).is_some(), "'{live}' survives");
    }
    assert_eq!(cache.bytes(), cost * 4, "bytes track the survivors");
    assert_eq!(cache.len(), 4, "four slots are resident");
}

#[test]
fn an_entry_past_a_quarter_of_the_budget_is_served_uncached() {
    let mut cache = RetrievalCache::new(2000);
    cache.insert(key("big"), value(600));
    assert_eq!(cache.len(), 0);
    assert_eq!(cache.bytes(), 0);
}

#[test]
fn replacing_an_entry_reaccounts_its_bytes_and_order_row() {
    let mut cache = RetrievalCache::new(10_000);
    cache.insert(key("a"), value(400));
    cache.insert(key("a"), value(100));
    assert_eq!(cache.len(), 1);
    assert_eq!(cache.bytes(), slot_cost(&key("a"), &value(100)));
    assert_eq!(cache.lookup(&key("a")).unwrap().payload.len(), 102);
}

#[test]
fn a_zero_budget_disables_the_cache() {
    let mut cache = RetrievalCache::new(0);
    assert!(!cache.is_enabled());
    cache.insert(key("a"), value(10));
    assert!(cache.lookup(&key("a")).is_none());
    assert_eq!(cache.len(), 0);
}

#[test]
fn a_slot_weighs_its_strings_and_a_fixed_overhead() {
    // 402 for the payload, 1 + 24 for the target, 1 for the parameters, 64.
    assert_eq!(slot_cost(&key("a"), &value(400)), 492);
    let wide = RetrievalKey {
        op: RetrievalCacheOp::Query,
        targets: vec![
            TargetFingerprint { name: "蔵".to_string(), identity: 1, lanes: (0, 0) },
            TargetFingerprint { name: "d".to_string(), identity: 2, lanes: (0, 0) },
        ],
        params: String::new(),
    };
    assert_eq!(slot_cost(&wide, &value(0)), 2 + 3 + 24 + 1 + 24 + 64);
}

#[test]
fn each_operation_depends_on_two_lanes() {
    let revision = ContextRevision { graph: 1, passages: 2, config: 3 };
    assert_eq!(op_lanes(RetrievalCacheOp::Recall, revision), (1, 2));
    assert_eq!(op_lanes(RetrievalCacheOp::Query, revision), (1, 2));
    assert_eq!(op_lanes(RetrievalCacheOp::SearchPassages, revision), (2, 3));
    assert_eq!(op_lanes(RetrievalCacheOp::SearchCommunities, revision), (2, 3));
}

#[test]
fn the_order_of_the_targets_is_part_of_the_key() {
    let one = TargetFingerprint { name: "a".to_string(), identity: 1, lanes: (0, 0) };
    let two = TargetFingerprint { name: "b".to_string(), identity: 2, lanes: (0, 0) };
    let again_one = TargetFingerprint { name: "a".to_string(), identity: 1, lanes: (0, 0) };
    let again_two = TargetFingerprint { name: "b".to_string(), identity: 2, lanes: (0, 0) };
    let forth = RetrievalKey { op: RetrievalCacheOp::Recall, targets: vec![one, two], params: String::new() };
    let back = RetrievalKey { op: RetrievalCacheOp::Recall, targets: vec![again_two, again_one], params: String::new() };
    assert!(!forth.equals(&back));
    assert!(forth.equals(&forth.with_params(String::new())));
    assert!(!forth.equals(&forth.with_params("p".to_string())));
}

#[test]
fn a_paraphrase_with_no_tripwires_agrees() {
    assert!(queries_agree("does the mill mass-produce oysters", "is the mill mass-producing oysters"));
    assert!(queries_agree("Does the mill run", "is the mill running"));
    assert!(queries_agree("川舟の仕事は何か", "川舟は何の仕事をするか"));
}

#[test]
fn a_negation_flip_refuses_in_english_and_japanese() {
    assert!(!queries_agree("does it mass-produce", "does it not mass-produce"));
    assert!(!queries_agree("is it produced", "isn't it produced"));
    assert!(!queries_agree("it works", "it never works"));
    assert!(!queries_agree("弟は死んだか", "弟は死ななかったか"));
    assert!(!queries_agree("許可がある", "許可がない"));
    assert!(!queries_agree("is it produced", "isn\u{2019}t it produced"));
    assert!(queries_agree("why is it not produced", "why was it not produced"));
    assert!(!queries_agree("why is it not produced", "why isn't it produced"));
}

#[test]
fn a_changed_number_refuses_and_a_folded_width_does_not() {
    assert!(!queries_agree("did it sell 20 units", "did it sell 30 units"));
    assert!(!queries_agree("is v2 stable", "is v3 stable"));
    assert!(!queries_agree("in 2024", "in 2025"));
    assert!(queries_agree("did it sell ２０ units", "did it sell 20 units"));
    assert!(!queries_agree("chapter 01", "chapter 1"));
}

#[test]
fn a_swapped_entity_refuses_where_capitalization_marks_it() {
    assert!(!queries_agree("does Acme mass-produce widgets", "does Globex mass-produce widgets"));
    assert!(!queries_agree("NASA launch schedule", "ESA launch schedule"));
    assert!(queries_agree("when did Acme ship widgets", "when did ACME ship widgets"));
}

#[test]
fn the_guard_is_an_equivalence() {
    let a = "did it sell 20 units";
    let b = "how did it sell ２０ units";
    let c = "20 units: did it sell";
    assert!(queries_agree(a, a));
    assert!(queries_agree(a, b) && queries_agree(b, a));
    assert!(queries_agree(b, c) && queries_agree(a, c));
}

fn bucket(tag: &str) -> SemanticBucket {
    SemanticBucket {
        op: RetrievalCacheOp::SearchPassages,
        targets: vec!["c".to_string()],
        params: tag.to_string(),
    }
}

fn rank_of(x: f64) -> u64 {
    let bits = x.to_bits();
    if bits >> 63 == 1 {
        !bits
    } else {
        bits ^ (1 << 63)
    }
}

fn unit(x: f32, y: f32) -> (f32, f32) {
    let norm = (x * x + y * y).sqrt();
    (x / norm, y / norm)
}

/// The vectors of an index under test: the caller's half of it.
struct Vectors {
    table: Vec<(f32, f32)>,
}

impl Vectors {
    fn cosines(&self, cache: &SemanticCache, bucket: &SemanticBucket, probe: (f32, f32)) -> Vec<u64> {
        cache
            .embeddings(bucket)
            .iter()
            .map(|handle| {
                let stored = self.table[*handle as usize];
                rank_of((stored.0 * probe.0 + stored.1 * probe.1) as f64)
            })
            .collect()
    }

    fn register(&mut self, cache: &mut SemanticCache, scope: &str, query: &str, vector: (f32, f32), params: &str) {
        let cosines = self.cosines(cache, &bucket(scope), vector);
        let handle = self.table.len() as u64;
        self.table.push(vector);
        cache.register(bucket(scope), query, handle, params, &cosines);
    }

    fn candidates(&self, cache: &mut SemanticCache, scope: &str, probe: (f32, f32)) -> Vec<Candidate> {
        let cosines = self.cosines(cache, &bucket(scope), probe);
        cache.candidates(&bucket(scope), &cosines)
    }
}

fn index() -> (SemanticCache, Vectors) {
    (SemanticCache::new(Some(rank_of(0.9f32 as f64))), Vectors { table: Vec::new() })
}

#[test]
fn candidates_come_back_similarity_descending_and_floored() {
    let (mut cache, mut vectors) = index();
    vectors.register(&mut cache, "p", "close", unit(0.9135, 0.4067), "params-close");
    vectors.register(&mut cache, "p", "closer", unit(0.9903, -0.1392), "params-closer");
    vectors.register(&mut cache, "p", "far away", unit(0.0, 1.0), "params-far");
    let found = vectors.candidates(&mut cache, "p", unit(1.0, 0.0));
    assert_eq!(
        found.iter().map(|c| c.query.as_str()).collect::<Vec<_>>(),
        ["closer", "close"],
        "the orthogonal slot never surfaces"
    );
    assert!(found[0].similarity > found[1].similarity);
    assert!(vectors.candidates(&mut cache, "q", unit(1.0, 0.0)).is_empty());
}

#[test]
fn registering_an_equivalent_query_replaces_its_cluster_canonical() {
    let (mut cache, mut vectors) = index();
    vectors.register(&mut cache, "p", "the old wording", unit(1.0, 0.0), "old-params");
    vectors.register(&mut cache, "p", "the new wording", unit(0.99, 0.1), "new-params");
    assert_eq!(cache.len(), 1, "one cluster, one canonical");
    let found = vectors.candidates(&mut cache, "p", unit(1.0, 0.0));
    assert_eq!(found[0].query, "the new wording");
    assert_eq!(found[0].params, "new-params");
}

#[test]
fn a_guard_refused_neighbor_opens_its_own_cluster() {
    let (mut cache, mut vectors) = index();
    vectors.register(&mut cache, "p", "does it produce", unit(1.0, 0.0), "a");
    vectors.register(&mut cache, "p", "does it not produce", unit(1.0, 0.0), "b");
    assert_eq!(cache.len(), 2, "negation stays a separate claim");
}

#[test]
fn the_cap_evicts_the_stalest_slot_across_buckets() {
    let (mut cache, mut vectors) = index();
    for at in 0..=SEMANTIC_CACHE_CAP {
        vectors.register(&mut cache, &format!("scope-{at}"), "q", unit(1.0, 0.0), "params");
    }
    assert_eq!(cache.len(), SEMANTIC_CACHE_CAP);
    assert!(
        vectors.candidates(&mut cache, "scope-0", unit(1.0, 0.0)).is_empty(),
        "the first-registered slot is the one evicted"
    );
    assert!(!vectors.candidates(&mut cache, "scope-1", unit(1.0, 0.0)).is_empty());
}

#[test]
fn an_unset_threshold_disables_everything() {
    let mut cache = SemanticCache::new(None);
    let mut vectors = Vectors { table: Vec::new() };
    vectors.register(&mut cache, "p", "q", unit(1.0, 0.0), "params");
    assert_eq!(cache.len(), 0);
    assert!(vectors.candidates(&mut cache, "p", unit(1.0, 0.0)).is_empty());
}

fn options() -> Options {
    Options {
        cache_bytes: u64::MAX,
        wal_enabled: true,
        wal_max_bytes: 0,
        per_context_metrics: PerContextMetrics::Off,
        load_retry: 30,
        max_group_members: 100,
        embed_passages: true,
        embedding_model: Some("mock".to_string()),
        semantic_floor: rank_of(0.5),
    }
}

fn boot() -> AppState {
    let mut state = AppState::new(options(), NameMap::new(), None, 100_000, Some(rank_of(0.9)));
    assert!(state.create("sake").is_ok());
    assert!(state.settle_created("sake", ContextMeta::default(), Ok((ContextStats::default(), 100))).is_ok());
    state
}

fn targets() -> Vec<String> {
    vec!["sake".to_string()]
}

#[test]
fn a_key_needs_the_cache_the_parameters_and_every_target() {
    let state = boot();
    let key = state.retrieval_key(RetrievalCacheOp::Recall, &targets(), Some("p".to_string())).unwrap();
    assert_eq!(key.params, "p");
    assert_eq!(key.targets.len(), 1);
    assert_eq!(key.targets[0].name, "sake");
    assert!(state.retrieval_key(RetrievalCacheOp::Recall, &targets(), None).is_none());
    let gone = vec!["sake".to_string(), "nope".to_string()];
    assert!(state.retrieval_key(RetrievalCacheOp::Recall, &gone, Some("p".to_string())).is_none());
    let disabled = AppState::new(options(), NameMap::new(), None, 0, None);
    assert!(disabled.retrieval_key(RetrievalCacheOp::Recall, &Vec::new(), Some("p".to_string())).is_none());
}

#[test]
fn a_write_makes_the_filed_response_unreachable() {
    let mut state = boot();
    let key = state.retrieval_key(RetrievalCacheOp::Recall, &targets(), Some("p".to_string())).unwrap();
    assert!(state.retrieval_lookup(&key).is_none());
    state.retrieval_store(key.with_params("p".to_string()), value(10));
    assert_eq!(state.retrieval_lookup(&key).unwrap().payload, value(10).payload);
    assert_eq!(state.retrieval_cache_gauges(), (1, slot_cost(&key, &value(10)) as u64));
    state.registry.get_mut("sake").unwrap().graph_revision += 1;
    let moved = state.retrieval_key(RetrievalCacheOp::Recall, &targets(), Some("p".to_string())).unwrap();
    assert!(state.retrieval_lookup(&moved).is_none());
    // A passage search does not depend on the graph.
    let passages = state.retrieval_key(RetrievalCacheOp::SearchPassages, &targets(), Some("p".to_string())).unwrap();
    state.retrieval_store(passages.with_params("p".to_string()), value(20));
    state.registry.get_mut("sake").unwrap().graph_revision += 1;
    let same = state.retrieval_key(RetrievalCacheOp::SearchPassages, &targets(), Some("p".to_string())).unwrap();
    assert!(state.retrieval_lookup(&same).is_some());
    let counts = state.metrics();
    assert_eq!((counts.retrieval_hits.recall, counts.retrieval_misses.recall), (1, 2));
    assert_eq!((counts.retrieval_hits.search_passages, counts.retrieval_misses.search_passages), (1, 0));
}

#[test]
fn a_paraphrase_is_served_from_its_canonical_until_the_corpus_moves() {
    let mut state = boot();
    let op = RetrievalCacheOp::SearchPassages;
    let filled = state.retrieval_key(op, &targets(), Some("q=the old wording".to_string())).unwrap();
    state.retrieval_store(filled.with_params("q=the old wording".to_string()), value(10));
    state.semantic_register(
        &filled,
        SemanticFill { params: "sans".to_string(), query: "the old wording".to_string(), embedding: 7, cosines: Vec::new() },
    );
    assert_eq!(state.semantic_cache_entries(), 1);

    let asked = state.retrieval_key(op, &targets(), Some("q=the new wording".to_string())).unwrap();
    assert_eq!(state.semantic_embeddings(&asked, "sans"), vec![7]);
    assert!(state.semantic_embeddings(&asked, "other").is_empty());
    assert_eq!(state.semantic_handles(), vec![7]);
    assert!(state.semantic_wants("the new wording"));
    let probe = state.semantic_retrieval(&asked, "sans", "the new wording", Some(vec![rank_of(0.95)])).unwrap();
    let served = probe.served.unwrap();
    assert_eq!(served.canonical, "the old wording");
    assert_eq!(served.value.payload, value(10).payload);
    assert_eq!(served.similarity, rank_of(0.95));
    assert!(state.retrieval_lookup_uncounted(&asked).is_none(), "a semantic hit files nothing");

    // The guard refuses; nothing clears; the corpus moved on.
    assert!(state.semantic_retrieval(&asked, "sans", "not the new wording", Some(vec![rank_of(0.95)])).unwrap().served.is_none());
    assert!(state.semantic_retrieval(&asked, "sans", "the new wording", Some(vec![rank_of(0.5)])).unwrap().served.is_none());
    state.registry.get_mut("sake").unwrap().passage_revision += 1;
    let moved = state.retrieval_key(op, &targets(), Some("q=the new wording".to_string())).unwrap();
    assert!(state.semantic_retrieval(&moved, "sans", "the new wording", Some(vec![rank_of(0.95)])).unwrap().served.is_none());
    let counts = state.metrics();
    assert_eq!(counts.semantic_hits, 1);
    assert_eq!(counts.semantic_guarded, 1);
    assert_eq!(counts.semantic_misses, 1);
    assert_eq!(counts.semantic_stale, 1);

    // The tier does not run: a blank query, or a provider that refused.
    assert!(state.semantic_retrieval(&moved, "sans", " \u{3000}", Some(Vec::new())).is_none());
    assert!(state.semantic_retrieval(&moved, "sans", "q", None).is_none());
    assert_eq!(state.metrics().semantic_misses, 1);
}

#[test]
fn a_cosine_that_is_not_a_number_clears_no_threshold() {
    let (mut cache, mut vectors) = index();
    vectors.register(&mut cache, "p", "the old wording", unit(1.0, 0.0), "old-params");
    assert!(cache.candidates(&bucket("p"), &vec![rank_of(f64::NAN)]).is_empty());
    assert!(cache.candidates(&bucket("p"), &vec![u64::MAX]).is_empty());
    assert!(cache.candidates(&bucket("p"), &vec![0]).is_empty());
    cache.register(bucket("p"), "the new wording", 1, "new-params", &vec![rank_of(f64::NAN)]);
    assert_eq!(cache.len(), 2, "nothing was replaced");

    let mut state = boot();
    let filled = state.retrieval_key(RetrievalCacheOp::SearchPassages, &targets(), Some("q".to_string())).unwrap();
    state.retrieval_store(filled.with_params("q".to_string()), value(10));
    let fill = SemanticFill { params: "sans".to_string(), query: "q".to_string(), embedding: 7, cosines: Vec::new() };
    state.semantic_register(&filled, fill);
    let probe = state.semantic_retrieval(&filled, "sans", "q", Some(vec![rank_of(f64::NAN)])).unwrap();
    assert!(probe.served.is_none());
    assert_eq!(state.metrics().semantic_misses, 1);
}

#[test]
fn a_recreated_context_never_answers_from_its_old_incarnation() {
    let mut state = boot();
    let op = RetrievalCacheOp::Recall;
    let old = state.retrieval_key(op, &targets(), Some("p".to_string())).unwrap();
    state.retrieval_store(old.with_params("p".to_string()), value(10));
    let serial = state.registry.get("sake").unwrap().serial;
    assert!(matches!(state.delete("sake"), Some(Ok(()))));
    assert!(!state.is_live("sake", serial));
    assert!(state.settle_deleted("sake", Ok(())).is_ok());
    assert!(state.create("sake").is_ok());
    assert!(state.settle_created("sake", ContextMeta::default(), Ok((ContextStats::default(), 100))).is_ok());
    let new = state.retrieval_key(op, &targets(), Some("p".to_string())).unwrap();
    assert_eq!(new.targets[0].lanes, old.targets[0].lanes);
    assert_ne!(new.targets[0].identity, old.targets[0].identity);
    assert!(state.retrieval_lookup(&new).is_none());
    assert!(!state.is_live("sake", serial), "a ticket from before the delete stays dead");
}
