//! Searching passages: the two lanes, their fusion, and explanations.
use registry::explain::{
    explain_gate, ExplainTarget, LexicalFacts, PassageExplainLookup, PassageSearchExplanation, REACH_TRIES,
};
use registry::fusion::{fuse_passage_lanes, paired_ranks, LaneHit, PassageSearchHit, RankScores};
use registry::index::{index_drift, IndexOrigin, IndexStep};
use registry::names::{NameMap, NameSet};
use registry::passages::{Paragraph, PassageRecord, PassageStore, SourceFilter, SourceMeta};
use registry::paths::fnv64;
use registry::residency::EvictStep;
use registry::search::{
    lane_pool, semantic_lane_hits, take_pool, Cue, PassageSearch, PassageSearchLanes, PassageVectorGate, SearchFault,
    SearchStep, SourceFilterReport, Swept, VectorFacts, VectorLaneStatus,
};
use registry::state::{AppState, ContextMeta, ContextStats, IoFault, Options, PerContextMetrics};
use registry::terms::passage_terms;
use std::collections::BTreeSet;

fn rank(value: f64) -> u64 {
    let bits = (value + 0.0).to_bits();
    if bits >> 63 == 1 {
        !bits
    } else {
        bits ^ (1 << 63)
    }
}

const DEFAULT_FLOOR: f64 = 0.5;

fn options(model: Option<&str>) -> Options {
    Options {
        cache_bytes: u64::MAX,
        wal_enabled: true,
        wal_max_bytes: 0,
        per_context_metrics: PerContextMetrics::Off,
        load_retry: 30,
        max_group_members: 100,
        embed_passages: model.is_some(),
        embedding_model: model.map(|name| name.to_string()),
        semantic_floor: rank(DEFAULT_FLOOR),
    }
}

fn hash(text: &str) -> u64 {
    fnv64(text.as_bytes())
}

fn record(text: &str) -> PassageRecord {
    let paragraphs = text
        .split("\n\n")
        .map(|part| Paragraph { hash: hash(part), text: part.to_string(), normalized: part.to_lowercase() })
        .collect();
    PassageRecord {
        text: text.to_string(),
        paragraphs,
        sections: Vec::new(),
        locators: Vec::new(),
        questions: Vec::new(),
        meta: SourceMeta { stored_at: None, date: None, tags: Vec::new() },
    }
}

/// A deployment with one context, its store, and the vectors that were
/// computed of it.
struct World {
    state: AppState,
    store: PassageStore,
    /// Source, paragraph, the text that was embedded, its vector.
    vectors: Vec<(String, u32, String, [f64; 2])>,
    embed: fn(&str) -> [f64; 2],
    query_embeds: bool,
}

const NAME: &str = "sake";

/// Everything about apples lies on one axis, oranges a little off it.
fn fruity(text: &str) -> [f64; 2] {
    if text.contains("りんご") || text.contains("アップル") {
        [1.0, 0.0]
    } else if text.contains("みかん") {
        [0.28, 0.96]
    } else {
        [0.0, 1.0]
    }
}

fn marked(text: &str) -> [f64; 2] {
    if text.starts_with("TARGETMARKER") {
        [0.5, 0.8660254]
    } else {
        [1.0, 0.0]
    }
}

impl World {
    fn boot(model: Option<&str>, embed: fn(&str) -> [f64; 2]) -> World {
        let mut state = AppState::new(options(model), NameMap::new(), None, 0, None);
        assert!(state.create(NAME).is_ok());
        assert!(state.settle_created(NAME, ContextMeta::default(), Ok((ContextStats::default(), 0))).is_ok());
        World { state, store: NameMap::new(), vectors: Vec::new(), embed, query_embeds: true }
    }

    fn lexical() -> World {
        World::boot(None, fruity)
    }

    fn put(&mut self, source: &str, text: &str) {
        self.store.insert(source.to_string(), record(text));
    }

    /// Embeds every paragraph as it stands.
    fn refresh(&mut self) {
        self.vectors.clear();
        for at in 0..self.store.len() {
            let source = self.store.key_at(at).clone();
            for (index, paragraph) in self.store.value_at(at).paragraphs.iter().enumerate() {
                let vector = (self.embed)(&paragraph.text);
                self.vectors.push((source.clone(), index as u32, paragraph.text.clone(), vector));
            }
        }
    }

    fn admitted(&self, filter: Option<&SourceFilter>) -> BTreeSet<String> {
        match filter {
            None => (0..self.store.len()).map(|at| self.store.key_at(at).clone()).collect(),
            Some(filter) => {
                let set = self.state.window_source_names(NAME, Ok(&self.store), filter).unwrap().ok().unwrap();
                set.names().into_iter().collect()
            }
        }
    }

    fn lexical_lane(&self, grams: &[u64], among: &BTreeSet<String>) -> Vec<LaneHit> {
        let mut hits = Vec::new();
        for at in 0..self.store.len() {
            let source = self.store.key_at(at);
            if !among.contains(source) {
                continue;
            }
            for (index, paragraph) in self.store.value_at(at).paragraphs.iter().enumerate() {
                let terms = passage_terms(&paragraph.text, &paragraph.normalized);
                let shared = grams.iter().filter(|gram| terms.contains(gram)).count();
                if shared > 0 {
                    let score = rank(shared as f64 + 1.0 / (1.0 + terms.len() as f64));
                    hits.push(LaneHit { source: source.clone(), index: index as u32, hash: paragraph.hash, score });
                }
            }
        }
        hits.sort_by(|a, b| b.score.cmp(&a.score).then(a.source.cmp(&b.source)).then(a.index.cmp(&b.index)));
        hits
    }

    fn vector_lane(&self, query: &str, among: &BTreeSet<String>) -> Vec<LaneHit> {
        let cue = (self.embed)(query);
        let mut hits: Vec<LaneHit> = self
            .vectors
            .iter()
            .filter(|(source, ..)| among.contains(source))
            .map(|(source, index, text, vector)| LaneHit {
                source: source.clone(),
                index: *index,
                hash: hash(text),
                score: rank(cue[0] * vector[0] + cue[1] * vector[1]),
            })
            .collect();
        hits.sort_by(|a, b| b.score.cmp(&a.score).then(a.source.cmp(&b.source)).then(a.index.cmp(&b.index)));
        hits
    }

    fn cue(&self) -> Cue {
        if !self.state.passage_query_cue() {
            Ok(None)
        } else if self.query_embeds {
            Ok(Some(2))
        } else {
            Err("provider hiccup".to_string())
        }
    }

    fn facts(&self) -> VectorFacts {
        VectorFacts { rows: self.vectors.len(), model: "mock".to_string(), dim: 2 }
    }

    fn swept(&self, lexical: Vec<LaneHit>, rows: Vec<LaneHit>, floor: Option<f64>) -> Swept {
        let (cue, vectors) = (self.cue(), self.facts());
        let pairs =
            self.state.fusion_ranks(NAME, &cue, &vectors, &lexical, &rows, floor.map(rank)).unwrap();
        let single = (1..=lexical.len().max(rows.len())).map(|r| rank(1.0 / (60.0 + r as f64))).collect();
        let both = pairs
            .iter()
            .enumerate()
            .map(|(at, pair)| match pair {
                Some(v) => rank(1.0 / (60.0 + (at + 1) as f64) + 1.0 / (60.0 + *v as f64)),
                None => 0,
            })
            .collect();
        Swept { cue, vectors, lexical, rows, scores: RankScores { single, both } }
    }

    fn search_with(
        &self,
        query: &str,
        limit: usize,
        floor: Option<f64>,
        filter: Option<&SourceFilter>,
    ) -> PassageSearch {
        let among = self.admitted(filter);
        let (grams, pool) = match self.state.search_passages(NAME, query, &query.to_lowercase(), limit).unwrap() {
            SearchStep::Answered(found) => return found,
            SearchStep::Sweep { grams, pool, .. } => (grams, pool),
        };
        let lexical = take_pool(&self.lexical_lane(&grams, &among), pool);
        let rows = take_pool(&self.vector_lane(query, &among), pool);
        let swept = self.swept(lexical, rows, floor);
        self.state
            .search_finished(NAME, Ok(&self.store), false, filter, &swept, floor.map(rank), limit)
            .unwrap()
            .ok()
            .unwrap()
    }

    fn search(&self, query: &str, limit: usize) -> Vec<PassageSearchHit> {
        self.search_with(query, limit, None, None).hits
    }

    fn explain_with(
        &self,
        query: &str,
        source: &str,
        limit: usize,
        floor: Option<f64>,
        filter: Option<&SourceFilter>,
    ) -> PassageExplainLookup {
        let among = self.admitted(filter);
        let start = self.state.explain_passage_search(NAME, query, &query.to_lowercase()).unwrap();
        let grams: Vec<u64> = start.terms.iter().map(|term| term.key).collect();
        let swept = self.swept(self.lexical_lane(&grams, &among), self.vector_lane(query, &among), floor);
        let mut evidence = Vec::new();
        if let Some(content) = self.store.get(source) {
            for paragraph in &content.paragraphs {
                let terms = passage_terms(&paragraph.text, &paragraph.normalized);
                let shared = grams.iter().filter(|gram| terms.contains(gram)).count();
                evidence.push(Some(LexicalFacts { hash: paragraph.hash, shared }));
            }
        }
        let target =
            ExplainTarget { source: source.to_string(), paragraph: None, limit, floor_override: floor.map(rank) };
        self.state
            .explain_finished(NAME, Ok(&self.store), false, filter, &target, start.terms, &swept, &evidence)
            .unwrap()
            .ok()
            .unwrap()
    }

    fn explain(&self, query: &str, source: &str, limit: usize) -> Box<PassageSearchExplanation> {
        match self.explain_with(query, source, limit, None, None) {
            PassageExplainLookup::Explained(account) => account,
            _ => panic!("expected an account"),
        }
    }

    fn set_floor(&mut self, floor: f64) {
        let unloaded = Err("resident".to_string());
        let ticket =
            self.state.update_meta(NAME, None, None, None, Some(rank(floor)), unloaded, 1_000).unwrap().ok().unwrap();
        assert!(self.state.settle_updated_meta(ticket, Ok(())).is_ok());
    }
}

#[test]
fn passage_search_ranks_the_answering_text_first() {
    let mut world = World::lexical();
    world.put("第2段落", "原料米には主に山田錦を使い、精米歩合は50パーセントまで磨く。");
    world.put("第3段落", "杜氏の高瀬は南部杜氏の出身で、経験は30年を超える。");
    world.put("第5段落", "蔵開きの祭りでは、雲居山の伏流水で仕込んだ新酒がふるまわれる。");
    let hits = world.search("精米歩合はどこまで磨く?", 3);
    assert_eq!(hits[0].source, "第2段落");
    assert!(hits[0].score > rank(0.0));
    assert!(world.search("unrelated english words", 3).is_empty());
    assert!(world.state.search_passages("nope", "x", "x", 3).is_none());
}

#[test]
fn passage_search_discriminates_english_by_words() {
    let mut world = World::lexical();
    world.put(
        "第51篇",
        "The great security against a gradual concentration of the several powers in the same department consists in \
         giving to those who administer each department the necessary constitutional means and personal motives to \
         resist encroachments of the others. Ambition must be made to counteract ambition.",
    );
    world.put(
        "第70篇",
        "Energy in the executive is a leading character in the definition of good government. It is essential to the \
         protection of the community against foreign attacks and to the security of liberty against the enterprises \
         and assaults of ambition, of faction, and of anarchy.",
    );
    let hits = world.search("ambition must be made to counteract ambition", 2);
    assert_eq!(hits[0].source, "第51篇");
    assert!(hits.len() < 2 || hits[0].score > hits[1].score, "the containing passage must win decisively");
}

#[test]
fn a_camel_case_piece_finds_the_passage() {
    let mut world = World::lexical();
    world.put(
        "src/registry.rs:AppState",
        "impl AppState { pub fn boot_with(dir: PathBuf) -> Self { todo!() } }",
    );
    for query in ["state", "State", "app", "path"] {
        let hits = world.search(query, 3);
        assert_eq!(
            hits.first().map(|hit| hit.source.as_str()),
            Some("src/registry.rs:AppState"),
            "a piece of a camelCase identifier must reach its passage (query {query:?})"
        );
    }
}

#[test]
fn passage_search_returns_the_answering_paragraph_not_the_whole_document() {
    let mut world = World::lexical();
    world.put(
        "docs/aomine.md",
        "青嶺酒造は雲居県霧沢町の蔵元である。\n\n原料米には山田錦を使い、精米歩合は50パーセントまで磨く。\n\n蔵開きの祭りでは新酒がふるまわれる。",
    );
    let hits = world.search("精米歩合はどこまで磨く?", 3);
    assert_eq!(
        (hits[0].source.as_str(), hits[0].index),
        ("docs/aomine.md", 1),
        "the hit names the paragraph, not just the document"
    );
    assert_eq!(
        hits[0].text, "原料米には山田錦を使い、精米歩合は50パーセントまで磨く。",
        "the text is the answering paragraph alone"
    );
}

#[test]
fn limit_to_reach_is_not_a_false_negative_when_stale_rows_inflate_the_raw_lane_rank() {
    let mut world = World::boot(Some("mock"), marked);
    world.put("fresh-doc", "FRESHMARKER");
    world.put("target-doc", "TARGETMARKER");
    for i in 0..15 {
        world.put(&format!("decoy-{i:02}"), "DECOYMARKER");
    }
    world.refresh();
    for i in 0..15 {
        world.put(&format!("decoy-{i:02}"), "DECOYMARKER-EDITED");
    }
    let account = world.explain("QUERYMARKER", "target-doc", 1);
    assert!(!account.served, "fresh-doc alone fills the one requested seat");
    assert_eq!(account.ranked, 2, "only fresh-doc and target-doc survive the staleness filter");
    assert_eq!(account.limit_to_reach, Some(2), "the whole field is itself a valid, untried candidate");
    let hits = world.search("QUERYMARKER", 2);
    assert!(hits.iter().any(|hit| hit.source == "target-doc"), "limit_to_reach must actually reach it");
}

#[test]
fn limit_to_reach_is_not_a_false_negative_when_doc2query_questions_inflate_the_raw_lane_rank() {
    let mut world = World::boot(Some("mock"), marked);
    world.put("target-doc", "TARGETMARKER");
    for i in 0..2 {
        world.put(&format!("decoy-{i:02}"), "DECOYMARKER");
    }
    world.refresh();
    for i in 0..2 {
        for _ in 0..30 {
            let vector = marked("DECOYQUESTION");
            world.vectors.push((format!("decoy-{i:02}"), 0, "DECOYMARKER".to_string(), vector));
        }
    }
    let account = world.explain("QUERYMARKER", "target-doc", 3);
    assert!(!account.served, "the decoys' rows alone fill the pool of three requested seats");
    assert_eq!(account.ranked, 3, "target-doc and both decoys all survive — nothing here is stale");
    assert_eq!(lane_pool(16), 64);
    assert_eq!(
        account.limit_to_reach,
        Some(16),
        "the target's raw vector-lane rank is 63rd; lane_pool(16) = 64 is the smallest pool that reaches it"
    );
    let hits = world.search("QUERYMARKER", 16);
    assert!(hits.iter().any(|hit| hit.source == "target-doc"), "limit_to_reach must actually reach it");
    assert!(!world.search("QUERYMARKER", 15).iter().any(|hit| hit.source == "target-doc"));
    assert!(REACH_TRIES >= 1);
}

#[test]
fn a_stored_question_row_answers_a_question_shaped_query_at_its_paragraph() {
    let mut world = World::boot(Some("mock"), fruity);
    world.put("doc", "りんごは真っ赤に実った。");
    world.refresh();
    let row = ("doc".to_string(), 0, "りんごは真っ赤に実った。".to_string(), fruity("アップルはどんな色?"));
    world.vectors.push(row);
    assert_eq!(world.vectors.len(), 2, "the paragraph row and its question row both embed");
    let hits = world.search("アップル", 3);
    assert_eq!(hits.len(), 1, "one paragraph, one hit — never a dup");
    assert_eq!((hits[0].source.as_str(), hits[0].index), ("doc", 0));
    assert!(hits[0].text.contains("りんご"), "the text served is the PARAGRAPH");
    let (place, cosine) = hits[0].vector.expect("found via the question row");
    assert_eq!(place, 1);
    assert!(cosine > rank(0.99));
}

#[test]
fn hybrid_search_surfaces_a_vector_only_hit_that_shares_no_letters() {
    let mut world = World::boot(Some("mock"), fruity);
    world.put("doc-a", "りんごは真っ赤に実った。");
    world.refresh();
    let hits = world.search("アップル", 3);
    assert_eq!(hits[0].source, "doc-a");
    assert!(hits[0].bm25.is_none(), "no shared bigram — the lexical lane must not have seen this");
    let (place, cosine) = hits[0].vector.expect("the vector lane found it");
    assert_eq!(place, 1);
    assert!(cosine > rank(0.9));
    assert_eq!(hits[0].score, rank(1.0 / 61.0), "one lane at rank 1 fuses to 1/(60+1)");
}

#[test]
fn hybrid_search_reports_both_lanes_when_both_agree() {
    let mut world = World::boot(Some("mock"), fruity);
    world.put("doc-a", "りんごは真っ赤に実った。");
    world.refresh();
    let hits = world.search("りんごは真っ赤", 3);
    assert_eq!(hits[0].source, "doc-a");
    let (bm25_rank, bm25_score) = hits[0].bm25.expect("shared bigrams");
    let (vector_rank, _) = hits[0].vector.expect("same fruit, same axis");
    assert_eq!((bm25_rank, vector_rank), (1, 1));
    assert!(bm25_score > rank(0.0));
    assert_eq!(hits[0].score, rank(2.0 / 61.0), "two lanes at rank 1 fuse to 2/(60+1)");
}

#[test]
fn a_lane_that_scored_outdated_text_loses_its_evidence_not_the_hit() {
    let mut world = World::boot(Some("mock"), fruity);
    world.put("doc-a", "りんごは真っ赤に実った。");
    world.refresh();
    world.put("doc-a", "りんごは青森の名産である。");
    let hits = world.search("りんご", 3);
    assert_eq!(hits[0].source, "doc-a");
    assert!(hits[0].text.contains("青森"), "the CURRENT text is served");
    assert!(hits[0].bm25.is_some(), "the lexical lane scored the fresh text and survives");
    assert!(hits[0].vector.is_none(), "the vector lane scored the OLD text; its evidence must drop");
    let (bm25_rank, _) = hits[0].bm25.unwrap();
    assert_eq!(
        hits[0].score,
        rank(1.0 / (60.0 + bm25_rank as f64)),
        "the fused score counts surviving lanes only"
    );
}

#[test]
fn hybrid_search_degrades_to_bm25_when_the_query_embedding_fails() {
    let mut world = World::boot(Some("mock"), fruity);
    world.put("doc-a", "りんごは真っ赤に実った。");
    world.refresh();
    world.query_embeds = false;
    let found = world.search_with("りんご", 3, None, None);
    assert_eq!(found.hits[0].source, "doc-a", "a broken decoration must not break the answer");
    assert!(found.hits[0].vector.is_none());
    let (_, bm25_score) = found.hits[0].bm25.unwrap();
    assert_eq!(found.hits[0].score, bm25_score, "with no semantic lane the score stays the raw BM25 number");
    assert!(matches!(
        found.lanes,
        PassageSearchLanes::Ran { vector: VectorLaneStatus::QueryEmbeddingFailed(message) } if message == "provider hiccup"
    ));
}

#[test]
fn lexical_only_deployments_keep_raw_bm25_scores() {
    let mut world = World::lexical();
    world.put("doc-a", "りんごは真っ赤に実った。");
    let found = world.search_with("りんご", 3, None, None);
    assert!(found.hits[0].vector.is_none());
    let (place, bm25_score) = found.hits[0].bm25.unwrap();
    assert_eq!(place, 1);
    assert_eq!(found.hits[0].score, bm25_score);
    assert!(found.hits[0].score > rank(0.1), "raw BM25, not a tiny RRF quotient");
    assert!(matches!(
        found.lanes,
        PassageSearchLanes::Ran { vector: VectorLaneStatus::Off { provider_configured: false } }
    ));
}

#[test]
fn search_passages_vector_lane_drops_candidates_below_the_default_semantic_floor() {
    let mut world = World::boot(Some("mock"), fruity);
    world.put("doc-a", "りんごは真っ赤に実った。");
    world.refresh();
    assert!(world.search("みかん", 3).is_empty(), "cosine 0.28 sits under the default floor");
}

#[test]
fn search_passages_vector_lane_honors_a_lowered_context_semantic_floor() {
    let mut world = World::boot(Some("mock"), fruity);
    world.put("doc-a", "りんごは真っ赤に実った。");
    world.refresh();
    world.set_floor(0.2);
    let hits = world.search("みかん", 3);
    assert_eq!(hits.len(), 1);
    assert_eq!(hits[0].source, "doc-a");
    let (place, cosine) = hits[0].vector.expect("cleared the lowered floor");
    assert_eq!(place, 1);
    assert_eq!(cosine, rank(0.28));
}

#[test]
fn search_passages_request_floor_override_beats_the_context_and_server_floors() {
    let mut world = World::boot(Some("mock"), fruity);
    world.put("doc-a", "りんごは真っ赤に実った。");
    world.refresh();
    let hits = world.search_with("みかん", 3, Some(0.2), None).hits;
    assert_eq!(hits.len(), 1, "an override under the cosine admits it past the server default");
    assert_eq!(hits[0].source, "doc-a");
    let (place, cosine) = hits[0].vector.expect("cleared the request floor");
    assert_eq!(place, 1);
    assert_eq!(cosine, rank(0.28));

    world.set_floor(0.2);
    assert!(
        world.search_with("みかん", 3, Some(0.5), None).hits.is_empty(),
        "an override above the cosine drops it even under a context floor lowered below it"
    );
}

#[test]
fn explain_passage_search_reports_the_request_floor_override_it_ran_under() {
    let mut world = World::boot(Some("mock"), fruity);
    world.put("doc-a", "りんごは真っ赤に実った。");
    world.refresh();
    let PassageExplainLookup::Explained(account) = world.explain_with("みかん", "doc-a", 3, Some(0.2), None) else {
        panic!("expected an account");
    };
    assert!(matches!(account.vector.status, VectorLaneStatus::Ran { floor } if floor == rank(0.2)));
    assert_eq!(account.vector.cosine, Some(rank(0.28)), "the target's cosine is scored, not filtered");
    let PassageExplainLookup::Explained(account) = world.explain_with("みかん", "doc-a", 3, None, None) else {
        panic!("expected an account");
    };
    assert_eq!(account.vector.cosine, Some(rank(0.28)), "below the floor, and still reported");
    assert!(!account.served && account.rank.is_none());
}

#[test]
fn an_explanation_matches_the_search_it_is_of() {
    let mut world = World::boot(Some("mock"), fruity);
    world.put("doc-a", "りんごは真っ赤に実った。");
    world.put("doc-b", "りんごとみかんを売る。\n\n何もない。");
    world.refresh();
    let hits = world.search("りんごは真っ赤", 1);
    let account = world.explain("りんごは真っ赤", "doc-a", 1);
    assert!(account.served);
    assert_eq!(account.rank, Some(1));
    assert_eq!(account.score, Some(hits[0].score));
    assert_eq!((account.bm25_lane, account.vector_lane), (hits[0].bm25, hits[0].vector));
    assert_eq!((account.paragraph, account.paragraphs, account.paragraph_named), (0, 1, false));
    let account = world.explain("りんごは真っ赤", "doc-b", 1);
    assert!(!account.served);
    assert_eq!(account.paragraph, 0, "the paragraph that shares most with the query stands for its source");
    assert_eq!(account.cutoff_score, Some(hits[0].score));
    assert_eq!(account.limit_to_reach, Some(2));
}

#[test]
fn explanations_say_why_there_is_nothing_to_explain() {
    let mut world = World::lexical();
    world.put("doc", "本文。");
    let tagged = SourceFilter { tagged: Some(NameSet::new()), since: None, until: None };
    assert!(matches!(
        world.explain_with("本文", "nope", 3, None, None),
        PassageExplainLookup::UnknownSource
    ));
    assert!(matches!(
        world.explain_with("本文", "doc", 3, None, Some(&tagged)),
        PassageExplainLookup::FilteredOut
    ));
    assert!(matches!(world.explain_with("?!", "doc", 3, None, None), PassageExplainLookup::NoQueryTerms));
    assert!(matches!(
        explain_gate(&world.store, "doc", Some(1), None, 2),
        Some(PassageExplainLookup::IndexOutOfRange { paragraphs: 1 })
    ));
    assert!(explain_gate(&world.store, "doc", Some(0), None, 2).is_none());
    assert!(world.state.explain_passage_search("nope", "x", "x").is_none());
}

#[test]
fn searches_that_need_no_sweep_answer_at_once() {
    let world = World::lexical();
    let found = world.search_with("りんご", 0, None, None);
    assert!(found.hits.is_empty() && found.filter.is_none());
    assert!(matches!(found.lanes, PassageSearchLanes::ZeroLimit));
    let found = world.search_with("?!", 3, None, None);
    assert!(found.hits.is_empty() && matches!(found.lanes, PassageSearchLanes::NoQueryTerms));
}

#[test]
fn a_filter_is_reported_and_keeps_to_its_sources() {
    let mut world = World::lexical();
    for source in ["a", "b", "c"] {
        world.put(source, "りんごは真っ赤に実った。");
    }
    let only = NameSet::of(&vec!["b".to_string()]);
    let filter = SourceFilter { tagged: Some(only), since: None, until: None };
    let found = world.search_with("りんご", 3, None, Some(&filter));
    assert_eq!(found.hits.iter().map(|hit| hit.source.as_str()).collect::<Vec<_>>(), ["b"]);
    assert_eq!(found.filter, Some(SourceFilterReport { eligible: 1, total: 3 }));
}

#[test]
fn a_search_fails_with_its_store_or_its_deadline() {
    let world = World::lexical();
    let swept = world.swept(Vec::new(), Vec::new(), None);
    let fault = IoFault { not_found: false, message: "gone".to_string() };
    assert!(matches!(
        world.state.search_finished(NAME, Err(fault), true, None, &swept, None, 3),
        Some(Err(SearchFault::Io(fault))) if fault.message == "gone"
    ));
    assert!(matches!(
        world.state.search_finished(NAME, Ok(&world.store), true, None, &swept, None, 3),
        Some(Err(SearchFault::DeadlineExceeded))
    ));
    assert!(world.state.search_finished("nope", Ok(&world.store), false, None, &swept, None, 3).is_none());
}

#[test]
fn the_vector_lane_says_why_it_does_not_run() {
    let world = World::boot(Some("mock"), fruity);
    let status = |cue: Cue, rows: usize, model: &str, dim: usize| {
        let facts = VectorFacts { rows, model: model.to_string(), dim };
        world.state.vector_lane(&cue, &facts, &Vec::new(), rank(0.5)).1
    };
    assert!(matches!(status(Ok(None), 1, "mock", 2), VectorLaneStatus::Off { provider_configured: true }));
    assert!(matches!(status(Ok(Some(2)), 0, "", 0), VectorLaneStatus::NoVectors));
    assert!(matches!(
        status(Ok(Some(2)), 1, "other", 2),
        VectorLaneStatus::ModelChanged { stored, current } if stored == "other" && current == "mock"
    ));
    assert!(matches!(
        status(Ok(Some(3)), 1, "mock", 2),
        VectorLaneStatus::WidthChanged { stored_dim: 2, current_dim: 3 }
    ));
    assert!(matches!(status(Ok(Some(2)), 1, "mock", 2), VectorLaneStatus::Ran { floor } if floor == rank(0.5)));
    assert!(matches!(status(Err("x".to_string()), 1, "mock", 2), VectorLaneStatus::QueryEmbeddingFailed(_)));
    let facts = VectorFacts { rows: 1, model: "mock".to_string(), dim: 2 };
    assert!(matches!(World::lexical().state.passage_vector_gate(&facts), PassageVectorGate::Disabled));
    assert!(matches!(world.state.passage_vector_gate(&facts), PassageVectorGate::Ready));
}

fn hit(source: &str, index: u32, hash: u64, score: u64) -> LaneHit {
    LaneHit { source: source.to_string(), index, hash, score }
}

#[test]
fn fusion_breaks_ties_by_source_and_paragraph() {
    let mut store: PassageStore = NameMap::new();
    store.insert("b".to_string(), record("x\n\ny"));
    store.insert("a".to_string(), record("x"));
    let lexical = vec![hit("b", 1, hash("y"), 5), hit("b", 0, hash("x"), 5), hit("a", 0, hash("x"), 5)];
    let scores = RankScores { single: Vec::new(), both: Vec::new() };
    let hits = fuse_passage_lanes(&store, &lexical, &Vec::new(), &scores, 10);
    let order: Vec<(&str, u32)> = hits.iter().map(|hit| (hit.source.as_str(), hit.index)).collect();
    assert_eq!(order, [("a", 0), ("b", 0), ("b", 1)]);
    assert_eq!(fuse_passage_lanes(&store, &lexical, &Vec::new(), &scores, 2).len(), 2);
    let gone = vec![hit("c", 0, 1, 9), hit("a", 7, 1, 9), hit("a", 0, 1, 9)];
    assert!(fuse_passage_lanes(&store, &gone, &Vec::new(), &scores, 10).is_empty());
    let pairs = paired_ranks(&lexical, &vec![hit("a", 0, 1, 9), hit("b", 1, 1, 8), hit("a", 0, 1, 7)]);
    assert_eq!(pairs, [Some(2), None, Some(1)]);
}

#[test]
fn pools_grow_with_the_limit_and_floors_cut_rows() {
    assert_eq!((lane_pool(0), lane_pool(1), lane_pool(12), lane_pool(13)), (50, 50, 50, 52));
    assert_eq!(lane_pool(usize::MAX), usize::MAX);
    let rows = vec![hit("a", 0, 1, rank(0.9)), hit("b", 0, 1, rank(0.5)), hit("c", 0, 1, rank(0.49))];
    let kept = semantic_lane_hits(&rows, rank(0.5));
    assert_eq!(kept.iter().map(|row| row.source.as_str()).collect::<Vec<_>>(), ["a", "b"]);
    assert_eq!(take_pool(&rows, 1).len(), 1);
}

fn digests(list: &[(&str, u64)]) -> NameMap<u64> {
    let mut map = NameMap::new();
    for (source, digest) in list {
        map.insert(source.to_string(), *digest);
    }
    map
}

#[test]
fn a_stale_index_sidecar_is_repaired_by_the_source_digest_mismatch() {
    let mut world = World::lexical();
    let serial = world.state.registry.get(NAME).unwrap().serial;
    let saved = digests(&[("第1章", 1), ("第2章", 2), ("第9章", 9)]);
    let store = digests(&[("第1章", 11), ("第2章", 2), ("第3章", 3)]);
    let repair = index_drift(&saved, &store);
    assert_eq!(repair.upsert, ["第1章", "第3章"], "the digest mismatch must repair 第1章 from the store");
    assert_eq!(repair.remove, ["第9章"]);
    assert!(!repair.is_empty());
    world.state.bm25_ready(NAME, serial, 10, IndexOrigin::Loaded { repaired: true });
    assert!(
        world.state.registry.get(NAME).unwrap().bm25_dirty,
        "a repair leaves the sidecar stale until the next tick"
    );
}

#[test]
fn passage_search_survives_a_restart_without_retokenizing() {
    let mut world = World::lexical();
    let serial = world.state.registry.get(NAME).unwrap().serial;
    let saved = digests(&[("第1章", 1)]);
    assert!(index_drift(&saved, &digests(&[("第1章", 1)])).is_empty());
    assert!(matches!(world.state.ensure_bm25_index(NAME, false, false), Some(IndexStep::LoadOrBuild)));
    world.state.bm25_ready(NAME, serial, 10, IndexOrigin::Loaded { repaired: false });
    assert!(
        !world.state.registry.get(NAME).unwrap().bm25_dirty,
        "a clean sidecar loads as-is — nothing drifted, nothing re-tokenized"
    );
    assert!(matches!(world.state.ensure_bm25_index(NAME, false, true), Some(IndexStep::Ready)));
}

#[test]
fn a_corrupt_index_sidecar_falls_back_to_a_full_rebuild_not_an_outage() {
    let mut world = World::lexical();
    let serial = world.state.registry.get(NAME).unwrap().serial;
    assert!(matches!(world.state.ensure_bm25_index(NAME, false, true), Some(IndexStep::Expired)));
    assert!(matches!(world.state.ensure_bm25_index(NAME, false, false), Some(IndexStep::LoadOrBuild)));
    world.state.bm25_ready(NAME, serial, 10, IndexOrigin::Built);
    assert!(world.state.registry.get(NAME).unwrap().bm25_dirty, "the tick replaces the corpse with a valid sidecar");
    assert!(matches!(world.state.ensure_bm25_index(NAME, true, false), Some(IndexStep::Rebuild)));
    assert!(world.state.ensure_bm25_index("nope", false, false).is_none());
}

#[test]
fn eviction_drops_the_resident_index_and_a_later_search_rebuilds_it() {
    let mut world = World::lexical();
    let serial = world.state.registry.get(NAME).unwrap().serial;
    world.state.bm25_ready(NAME, serial, 10, IndexOrigin::Loaded { repaired: false });
    assert!(matches!(world.state.evict_entry(NAME, serial), EvictStep::Cooled));
    let dropped = world.state.evict_residents(NAME, serial, 0);
    assert!(dropped.freed && !dropped.save_bm25);
    assert!(world.state.registry.get(NAME).unwrap().bm25.is_none(), "eviction must drop the resident index");
    assert!(matches!(world.state.ensure_bm25_index(NAME, false, false), Some(IndexStep::LoadOrBuild)));
}

#[test]
fn eviction_persists_a_dirty_index_for_the_next_residency() {
    let mut world = World::lexical();
    world.put("第1章", "麹室の湿度は五十パーセント。");
    assert!(!world.search("麹室の湿度", 3).is_empty());
    let serial = world.state.registry.get(NAME).unwrap().serial;
    world.state.bm25_ready(NAME, serial, 10, IndexOrigin::Built);
    assert!(world.state.evict_residents(NAME, serial, 0).save_bm25, "a dirty index rides out with the eviction");
    world.state.bm25_ready(NAME, serial, 10, IndexOrigin::Loaded { repaired: false });
    assert!(!world.search("麹室の湿度", 3).is_empty());
    assert!(!world.state.registry.get(NAME).unwrap().bm25_dirty);
}

#[test]
fn a_tick_saves_a_dirty_index_once_and_again_where_that_failed() {
    let mut world = World::lexical();
    let serial = world.state.registry.get(NAME).unwrap().serial;
    assert!(!world.state.flush_bm25(NAME, serial));
    world.state.bm25_ready(NAME, serial, 10, IndexOrigin::Built);
    assert!(world.state.flush_bm25(NAME, serial));
    assert!(!world.state.flush_bm25(NAME, serial));
    world.state.bm25_saved(NAME, serial, false);
    assert!(world.state.flush_bm25(NAME, serial), "what could not be saved is saved by the next tick");
    world.state.bm25_saved(NAME, serial, true);
    assert!(!world.state.flush_bm25(NAME, serial));
}

#[test]
fn a_store_after_the_first_search_updates_the_index_in_place() {
    let mut world = World::lexical();
    world.put("第1章", "青嶺酒造の創業は1907年。");
    assert!(!world.search("創業はいつ", 3).is_empty());
    world.put("第2章", "杜氏の高瀬は南部杜氏の出身。");
    assert_eq!(world.search("杜氏の出身", 3)[0].source, "第2章");
    world.store.remove("第2章");
    assert!(
        world.search("杜氏の出身", 3).iter().all(|hit| hit.source != "第2章"),
        "a retracted source must leave the index too"
    );
}
