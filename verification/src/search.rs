//! Searching the registered passages: a keyword lane, and a vector lane
//! where passages are embedded, fused into one ranking.
//!
//! The lanes themselves are swept by the caller. This module decides what is
//! to be swept, what each lane may say, and what is served.
use crate::fusion;
use crate::fusion::{fuse_passage_lanes, paired_ranks, LaneHit, PassageSearchHit, RankScores};
use crate::meta_ops;
use crate::meta_ops::clamp_floor;
use crate::passages;
use crate::passages::{eligible_sources, PassageStore, SourceFilter};
use crate::picking;
use crate::state::{AppState, ContextMeta, IoFault, Options};
use crate::terms;
use crate::terms::{spelled_passage_terms, Term};
use crate::text::same;
use vstd::prelude::*;

verus! {

/// Passages are embedded: the deployment says so and has a provider.
pub open spec fn embeds_passages(options: Options) -> bool {
    options.embed_passages && options.embedding_model is Some
}

/// How far a lane is swept for one `limit`: fusion can lift a hit that
/// neither lane had among its first `limit`.
pub open spec fn pool_for(limit: usize) -> usize {
    if 4 * limit > usize::MAX {
        usize::MAX
    } else if 4 * limit < 50 {
        50
    } else {
        (4 * limit) as usize
    }
}

/// How far a lane is swept for one `limit`: four times as far, and at least
/// fifty.
pub fn lane_pool(limit: usize) -> (res: usize)
    ensures
        res == pool_for(limit),
{
    let wide: usize = if limit > usize::MAX / 4 {
        usize::MAX
    } else {
        4 * limit
    };
    if wide < 50 {
        50
    } else {
        wide
    }
}

/// The term at `i` is the first with its key.
pub open spec fn is_first_of_key(terms: Seq<terms::TermView>, i: int) -> bool {
    forall|j: int| 0 <= j < i ==> (#[trigger] terms[j]).key != terms[i].key
}

/// The terms among the first `n` that are the first with their key.
pub open spec fn deduped_upto(terms: Seq<terms::TermView>, n: nat) -> Seq<terms::TermView>
    decreases n,
{
    if n == 0 {
        Seq::empty()
    } else {
        let rest = deduped_upto(terms, (n - 1) as nat);
        if is_first_of_key(terms, n - 1) {
            rest.push(terms[n - 1])
        } else {
            rest
        }
    }
}

/// The terms, each key's first occurrence only.
pub open spec fn deduped(terms: Seq<terms::TermView>) -> Seq<terms::TermView> {
    deduped_upto(terms, terms.len())
}

/// The keys of the deduplicated first terms are exactly the keys of the
/// first terms, and no key stands twice.
proof fn deduped_keys(terms: Seq<terms::TermView>, n: nat)
    requires
        n <= terms.len(),
    ensures
        forall|i: int| 0 <= i < n ==> has_key(deduped_upto(terms, n), (#[trigger] terms[i]).key),
        forall|k: int| 0 <= k < deduped_upto(terms, n).len() ==> exists|i: int|
            0 <= i < n && terms[i].key == (#[trigger] deduped_upto(terms, n)[k]).key,
    decreases n,
{
    if n > 0 {
        let m = (n - 1) as nat;
        deduped_keys(terms, m);
        let rest = deduped_upto(terms, m);
        let now = deduped_upto(terms, n);
        assert forall|i: int| 0 <= i < n implies has_key(now, (#[trigger] terms[i]).key) by {
            if i < m {
                let k = choose|k: int| key_is(rest, terms[i].key, k);
                assert(key_is(now, terms[i].key, k));
            } else if is_first_of_key(terms, n - 1) {
                assert(key_is(now, terms[i].key, rest.len() as int));
            } else {
                let j = choose|j: int| 0 <= j < m && (#[trigger] terms[j]).key == terms[n - 1].key;
                assert(has_key(rest, terms[j].key));
                let k = choose|k: int| key_is(rest, terms[j].key, k);
                assert(key_is(now, terms[i].key, k));
            }
        }
        assert forall|k: int| 0 <= k < now.len() implies exists|i: int|
            0 <= i < n && terms[i].key == (#[trigger] now[k]).key by {
            if k < rest.len() {
                assert(now[k] == rest[k]);
                let i = choose|i: int| 0 <= i < m && terms[i].key == rest[k].key;
                assert(terms[i].key == now[k].key);
            } else {
                assert(terms[n - 1].key == now[k].key);
            }
        }
    }
}

pub open spec fn key_is(terms: Seq<terms::TermView>, key: u64, k: int) -> bool {
    0 <= k < terms.len() && terms[k].key == key
}

pub open spec fn has_key(terms: Seq<terms::TermView>, key: u64) -> bool {
    exists|k: int| key_is(terms, key, k)
}

/// Every term finds its key among the deduplicated ones: deduplication
/// loses no key.
pub proof fn dedup_loses_no_key(terms: Seq<terms::TermView>, i: int)
    requires
        0 <= i < terms.len(),
    ensures
        has_key(deduped(terms), terms[i].key),
{
    deduped_keys(terms, terms.len());
}

/// The terms, each key's first occurrence only.
pub fn dedup_terms(list: Vec<Term>) -> (res: Vec<Term>)
    ensures
        terms::term_views(res@) == deduped(terms::term_views(list@)),
{
    let ghost all = terms::term_views(list@);
    let mut res: Vec<Term> = Vec::new();
    let mut i: usize = 0;
    assert(terms::term_views(res@) =~= Seq::empty());
    while i < list.len()
        invariant
            i <= list.len(),
            all == terms::term_views(list@),
            terms::term_views(res@) == deduped_upto(all, i as nat),
        decreases list.len() - i,
    {
        let term = &list[i];
        assert(all[i as int] == term@);
        let known = holds_key(&res, term.key);
        proof {
            deduped_keys(all, i as nat);
            if known {
                let k = choose|k: int| key_is(terms::term_views(res@), term.key, k);
                assert(deduped_upto(all, i as nat)[k].key == term.key);
                let j = choose|j: int| 0 <= j < i && all[j].key == deduped_upto(all, i as nat)[k].key;
                assert(!is_first_of_key(all, i as int));
            } else {
                assert forall|j: int| 0 <= j < i implies (#[trigger] all[j]).key != all[i as int].key by {
                    assert(has_key(deduped_upto(all, i as nat), all[j].key));
                }
                assert(is_first_of_key(all, i as int));
            }
        }
        if !known {
            let kept = Term { spelling: term.spelling.clone(), key: term.key };
            let ghost was = res@;
            res.push(kept);
            assert(terms::term_views(res@) =~= terms::term_views(was).push(kept@));
        }
        i = i + 1;
    }
    res
}

fn holds_key(list: &Vec<Term>, key: u64) -> (res: bool)
    ensures
        res == has_key(terms::term_views(list@), key),
{
    let mut i: usize = 0;
    while i < list.len()
        invariant
            i <= list.len(),
            forall|k: int| 0 <= k < i ==> !#[trigger] key_is(terms::term_views(list@), key, k),
        decreases list.len() - i,
    {
        assert(terms::term_views(list@)[i as int] == list@[i as int]@);
        if list[i].key == key {
            assert(key_is(terms::term_views(list@), key, i as int));
            return true;
        }
        i = i + 1;
    }
    false
}

/// The query's terms: deduplicated, in order.
pub open spec fn query_terms_of(query: Seq<char>, normalized: Seq<char>) -> Seq<terms::TermView> {
    deduped(terms::all_terms(crate::text::glyphs_of(normalized), crate::text::nfkc_of(query)))
}

/// The deduplicated terms of a query, with their spellings. `normalized` is
/// the query as it is indexed.
pub fn deduped_spelled_query_terms(query: &str, normalized: &str) -> (res: Vec<Term>)
    ensures
        terms::term_views(res@) == query_terms_of(query@, normalized@),
{
    dedup_terms(spelled_passage_terms(query, normalized))
}

/// The deduplicated term keys of a query.
pub fn deduped_query_grams(query: &str, normalized: &str) -> (res: Vec<u64>)
    ensures
        res@ == terms::keys_of(query_terms_of(query@, normalized@)),
{
    let list = deduped_spelled_query_terms(query, normalized);
    term_keys(&list)
}

/// The keys of terms, in order.
pub fn term_keys(list: &Vec<Term>) -> (res: Vec<u64>)
    ensures
        res@ == terms::keys_of(terms::term_views(list@)),
{
    let mut res: Vec<u64> = Vec::new();
    let ghost all = terms::term_views(list@);
    let mut i: usize = 0;
    while i < list.len()
        invariant
            i <= list.len(),
            all == terms::term_views(list@),
            res@ == terms::keys_of(all).take(i as int),
        decreases list.len() - i,
    {
        assert(all[i as int] == list@[i as int]@);
        res.push(list[i].key);
        assert(res@ =~= terms::keys_of(all).take(i + 1));
        i = i + 1;
    }
    assert(terms::keys_of(all).take(list.len() as int) =~= terms::keys_of(all));
    res
}

/// A score is at a floor or above it; what is not a number never is.
pub open spec fn clears_floor(score: u64, floor: u64) -> bool {
    score >= floor && !meta_ops::is_nan_rank(score) && !meta_ops::is_nan_rank(floor)
}

/// Whether a score is at a floor or above it.
pub fn reaches_floor(score: u64, floor: u64) -> (res: bool)
    ensures
        res == clears_floor(score, floor),
{
    score >= floor && score <= meta_ops::RANK_INFINITY && score >= meta_ops::RANK_NEGATIVE_INFINITY && floor
        <= meta_ops::RANK_INFINITY && floor >= meta_ops::RANK_NEGATIVE_INFINITY
}

/// The rows among the first `n` that clear the floor, in order.
pub open spec fn cleared_upto(rows: Seq<fusion::LaneView>, floor: u64, n: nat) -> Seq<fusion::LaneView>
    decreases n,
{
    if n == 0 {
        Seq::empty()
    } else {
        let rest = cleared_upto(rows, floor, (n - 1) as nat);
        if clears_floor(rows[n - 1].score, floor) {
            rest.push(rows[n - 1])
        } else {
            rest
        }
    }
}

/// The rows that clear the floor.
pub open spec fn cleared(rows: Seq<fusion::LaneView>, floor: u64) -> Seq<fusion::LaneView> {
    cleared_upto(rows, floor, rows.len())
}

/// The rows of a vector sweep that clear the floor, in sweep order.
pub fn semantic_lane_hits(rows: &Vec<LaneHit>, floor: u64) -> (res: Vec<LaneHit>)
    ensures
        fusion::lane_views(res@) == cleared(fusion::lane_views(rows@), floor),
{
    let mut res: Vec<LaneHit> = Vec::new();
    let ghost all = fusion::lane_views(rows@);
    let mut i: usize = 0;
    assert(fusion::lane_views(res@) =~= Seq::empty());
    while i < rows.len()
        invariant
            i <= rows.len(),
            all == fusion::lane_views(rows@),
            fusion::lane_views(res@) == cleared_upto(all, floor, i as nat),
        decreases rows.len() - i,
    {
        assert(all[i as int] == rows@[i as int]@);
        let score: u64 = rows[i].score;
        if reaches_floor(score, floor) {
            let row = rows[i].copy();
            let ghost was = res@;
            res.push(row);
            assert(fusion::lane_views(res@) =~= fusion::lane_views(was).push(row@));
        }
        i = i + 1;
    }
    res
}

/// The first rows of a sweep.
pub fn take_pool(rows: &Vec<LaneHit>, pool: usize) -> (res: Vec<LaneHit>)
    ensures
        fusion::lane_views(res@) == fusion::cut(fusion::lane_views(rows@), pool),
{
    let mut res: Vec<LaneHit> = Vec::new();
    let ghost all = fusion::lane_views(rows@);
    let mut i: usize = 0;
    while i < rows.len() && i < pool
        invariant
            i <= rows.len(),
            i <= pool,
            all == fusion::lane_views(rows@),
            fusion::lane_views(res@) == all.take(i as int),
        decreases rows.len() - i,
    {
        assert(all[i as int] == rows@[i as int]@);
        let row = rows[i].copy();
        let ghost was = res@;
        res.push(row);
        assert(fusion::lane_views(res@) =~= fusion::lane_views(was).push(row@));
        assert(fusion::lane_views(res@) =~= all.take(i + 1));
        i = i + 1;
    }
    assert(fusion::lane_views(res@) =~= fusion::cut(all, pool));
    res
}

/// What became of the query's embedding: its width, `None` where the vector
/// lane is off, or what the provider said.
pub type Cue = Result<Option<usize>, String>;

/// What is known of a context's stored paragraph vectors.
pub struct VectorFacts {
    pub rows: usize,
    pub model: String,
    pub dim: usize,
}

/// Why the vector lane can or cannot sweep a context's paragraphs.
pub enum PassageVectorGate {
    Disabled,
    Empty,
    ModelChanged { stored: String, current: String },
    Ready,
}

pub open spec fn gate_of(options: Options, vectors: VectorFacts, gate: PassageVectorGate) -> bool {
    if !embeds_passages(options) {
        gate is Disabled
    } else if vectors.rows == 0 {
        gate is Empty
    } else if vectors.model@ != (options.embedding_model->0)@ {
        gate matches PassageVectorGate::ModelChanged { stored, current } && stored@ == vectors.model@ && current@ == (
        options.embedding_model->0)@
    } else {
        gate is Ready
    }
}

/// What the vector lane did.
pub enum VectorLaneStatus {
    QueryEmbeddingFailed(String),
    Off { provider_configured: bool },
    NoVectors,
    ModelChanged { stored: String, current: String },
    /// The vectors were made under the same model name with another width.
    WidthChanged { stored_dim: usize, current_dim: usize },
    Ran { floor: u64 },
}

/// The vector lane sweeps: the query was embedded, and the vectors are there,
/// of the same model and width.
pub open spec fn lane_runs(options: Options, cue: Cue, vectors: VectorFacts) -> bool {
    &&& cue matches Ok(Some(width)) && width == vectors.dim
    &&& embeds_passages(options)
    &&& vectors.rows > 0
    &&& vectors.model@ == (options.embedding_model->0)@
}

pub open spec fn status_is(options: Options, cue: Cue, vectors: VectorFacts, floor: u64, status: VectorLaneStatus) -> bool {
    match cue {
        Err(said) => status matches VectorLaneStatus::QueryEmbeddingFailed(s) && s@ == said@,
        Ok(None) => status == (VectorLaneStatus::Off { provider_configured: options.embedding_model is Some }),
        Ok(Some(width)) => if !embeds_passages(options) {
            status == (VectorLaneStatus::Off { provider_configured: options.embedding_model is Some })
        } else if vectors.rows == 0 {
            status == VectorLaneStatus::NoVectors
        } else if vectors.model@ != (options.embedding_model->0)@ {
            status matches VectorLaneStatus::ModelChanged { stored, current } && stored@ == vectors.model@ && current@ == (
            options.embedding_model->0)@
        } else if width != vectors.dim {
            status == (VectorLaneStatus::WidthChanged { stored_dim: vectors.dim, current_dim: width })
        } else {
            status == (VectorLaneStatus::Ran { floor })
        },
    }
}

/// The floor of the vector lane: the call's own beats the context's beats
/// the deployment's, brought into range.
pub open spec fn floor_of(options: Options, meta: ContextMeta, floor_override: Option<u64>) -> u64 {
    meta_ops::clamped(
        match floor_override {
            Some(f) => f,
            None => match meta.semantic_floor {
                Some(f) => f,
                None => options.semantic_floor,
            },
        },
    )
}

/// What the vector lane hands to fusion.
pub open spec fn semantic_lane(
    options: Options,
    cue: Cue,
    vectors: VectorFacts,
    floor: u64,
    rows: Seq<fusion::LaneView>,
) -> Seq<fusion::LaneView> {
    if lane_runs(options, cue, vectors) {
        cleared(rows, floor)
    } else {
        Seq::empty()
    }
}

/// Which lanes a search ran.
pub enum PassageSearchLanes {
    ZeroLimit,
    NoQueryTerms,
    Ran { vector: VectorLaneStatus },
}

/// How many sources a filter admitted, of how many.
#[derive(Clone, Copy, PartialEq, Eq, Structural, Debug)]
pub struct SourceFilterReport {
    pub eligible: usize,
    pub total: usize,
}

/// What a search serves.
pub struct PassageSearch {
    pub hits: Vec<PassageSearchHit>,
    pub lanes: PassageSearchLanes,
    pub filter: Option<SourceFilterReport>,
}

/// How a search goes on.
pub enum SearchStep {
    /// It needs no sweep.
    Answered(PassageSearch),
    /// Embed the query where `embed` says so, then sweep both lanes for
    /// these terms, `pool` rows each, and go on to
    /// [`AppState::search_finished`].
    Sweep { grams: Vec<u64>, pool: usize, embed: bool },
}

/// Why a search failed.
pub enum SearchFault {
    Io(IoFault),
    DeadlineExceeded,
}

/// The report on a filter.
pub open spec fn filter_report(store: fusion::StoreMap, filter: Option<&SourceFilter>, report: Option<SourceFilterReport>) -> bool {
    match filter {
        None => report is None,
        Some(f) => report == Some(
            SourceFilterReport {
                eligible: passages::eligible_in(store, *f).len() as usize,
                total: store.dom().len() as usize,
            },
        ),
    }
}

/// What a caller swept, and with what.
pub struct Swept {
    pub cue: Cue,
    pub vectors: VectorFacts,
    pub lexical: Vec<LaneHit>,
    pub rows: Vec<LaneHit>,
    pub scores: RankScores,
}

impl AppState {
    /// Whether passages are embedded.
    pub fn passage_embedding_enabled(&self) -> (res: bool)
        ensures
            res == embeds_passages(self.options),
    {
        self.options.embed_passages && self.options.embedding_model.is_some()
    }

    /// Whether the query is to be embedded for the vector lane.
    pub fn passage_query_cue(&self) -> (embed: bool)
        ensures
            embed == embeds_passages(self.options),
    {
        self.passage_embedding_enabled()
    }

    /// Why the vector lane can or cannot sweep a context's paragraphs.
    pub fn passage_vector_gate(&self, vectors: &VectorFacts) -> (res: PassageVectorGate)
        ensures
            gate_of(self.options, *vectors, res),
    {
        if !self.options.embed_passages {
            return PassageVectorGate::Disabled;
        }
        match &self.options.embedding_model {
            None => PassageVectorGate::Disabled,
            Some(model) => {
                if vectors.rows == 0 {
                    PassageVectorGate::Empty
                } else if !same(vectors.model.as_str(), model.as_str()) {
                    PassageVectorGate::ModelChanged { stored: vectors.model.clone(), current: model.clone() }
                } else {
                    PassageVectorGate::Ready
                }
            },
        }
    }

    /// The floor that the vector lane drops matches below.
    pub fn effective_semantic_floor(&self, floor_override: Option<u64>, meta: &ContextMeta) -> (res: u64)
        ensures
            res == floor_of(self.options, *meta, floor_override),
    {
        let floor: u64 = match floor_override {
            Some(f) => f,
            None => match meta.semantic_floor {
                Some(f) => f,
                None => self.options.semantic_floor,
            },
        };
        clamp_floor(floor)
    }

    /// What the vector lane did, and what it hands to fusion.
    pub fn vector_lane(&self, cue: &Cue, vectors: &VectorFacts, rows: &Vec<LaneHit>, floor: u64) -> (res: (
        Vec<LaneHit>,
        VectorLaneStatus,
    ))
        ensures
            fusion::lane_views(res.0@) == semantic_lane(self.options, *cue, *vectors, floor, fusion::lane_views(rows@)),
            status_is(self.options, *cue, *vectors, floor, res.1),
    {
        let none: Vec<LaneHit> = Vec::new();
        assert(fusion::lane_views(none@) =~= Seq::empty());
        match cue {
            Err(said) => (none, VectorLaneStatus::QueryEmbeddingFailed(said.clone())),
            Ok(None) => (
                none,
                VectorLaneStatus::Off { provider_configured: self.options.embedding_model.is_some() },
            ),
            Ok(Some(width)) => match self.passage_vector_gate(vectors) {
                PassageVectorGate::Disabled => (
                    none,
                    VectorLaneStatus::Off { provider_configured: self.options.embedding_model.is_some() },
                ),
                PassageVectorGate::Empty => (none, VectorLaneStatus::NoVectors),
                PassageVectorGate::ModelChanged { stored, current } => (
                    none,
                    VectorLaneStatus::ModelChanged { stored, current },
                ),
                PassageVectorGate::Ready => {
                    if *width != vectors.dim {
                        (none, VectorLaneStatus::WidthChanged { stored_dim: vectors.dim, current_dim: *width })
                    } else {
                        (semantic_lane_hits(rows, floor), VectorLaneStatus::Ran { floor })
                    }
                },
            },
        }
    }

    /// Starts a search over a context's passages, or `None` where there is no
    /// such context. `normalized` is the query as it is indexed.
    pub fn search_passages(&self, name: &str, query: &str, normalized: &str, limit: usize) -> (res: Option<SearchStep>)
        requires
            self.wf(),
        ensures
            if !self.registry@.contains_key(name@) {
                res is None
            } else if limit == 0 {
                res matches Some(SearchStep::Answered(found)) && found.hits.len() == 0 && found.lanes
                    == PassageSearchLanes::ZeroLimit && found.filter is None
            } else if query_terms_of(query@, normalized@).len() == 0 {
                res matches Some(SearchStep::Answered(found)) && found.hits.len() == 0 && found.lanes
                    == PassageSearchLanes::NoQueryTerms && found.filter is None
            } else {
                res matches Some(SearchStep::Sweep { grams, pool, embed }) && grams@ == terms::keys_of(
                    query_terms_of(query@, normalized@),
                ) && pool == pool_for(limit) && embed == embeds_passages(self.options)
            },
    {
        if !self.registry.contains(name) {
            return None;
        }
        if limit == 0 {
            return Some(
                SearchStep::Answered(
                    PassageSearch { hits: Vec::new(), lanes: PassageSearchLanes::ZeroLimit, filter: None },
                ),
            );
        }
        let grams = deduped_query_grams(query, normalized);
        if grams.len() == 0 {
            return Some(
                SearchStep::Answered(
                    PassageSearch { hits: Vec::new(), lanes: PassageSearchLanes::NoQueryTerms, filter: None },
                ),
            );
        }
        Some(SearchStep::Sweep { grams, pool: lane_pool(limit), embed: self.passage_query_cue() })
    }

    /// For each hit of the keyword lane, the rank of its paragraph in the
    /// vector lane as fusion sees it: what the sums of [`RankScores`] are
    /// made from. `None` where there is no such context.
    pub fn fusion_ranks(
        &self,
        name: &str,
        cue: &Cue,
        vectors: &VectorFacts,
        lexical: &Vec<LaneHit>,
        rows: &Vec<LaneHit>,
        floor_override: Option<u64>,
    ) -> (res: Option<Vec<Option<usize>>>)
        requires
            self.wf(),
        ensures
            if !self.registry@.contains_key(name@) {
                res is None
            } else {
                let floor = floor_of(self.options, self.registry@[name@].meta, floor_override);
                let semantic = semantic_lane(self.options, *cue, *vectors, floor, fusion::lane_views(rows@));
                &&& res matches Some(ranks) && ranks.len() == lexical.len() && forall|i: int|
                    0 <= i < ranks.len() ==> #[trigger] ranks@[i] == match fusion::first_showing(
                        semantic,
                        lexical@[i].source@,
                        lexical@[i].index,
                        semantic.len(),
                    ) {
                        Some(e) => Some(e.0),
                        None => None::<usize>,
                    }
            },
    {
        match self.registry.get(name) {
            None => None,
            Some(entry) => {
                let floor: u64 = self.effective_semantic_floor(floor_override, &entry.meta);
                let (semantic, _) = self.vector_lane(cue, vectors, rows, floor);
                Some(paired_ranks(lexical, &semantic))
            },
        }
    }

    /// Ends a search: fuses what the lanes said, under the floor and the
    /// store as it is now. `expired` says that the time ran out before the
    /// keyword index was ready.
    pub fn search_finished(
        &self,
        name: &str,
        loaded: Result<&PassageStore, IoFault>,
        expired: bool,
        filter: Option<&SourceFilter>,
        swept: &Swept,
        floor_override: Option<u64>,
        limit: usize,
    ) -> (res: Option<Result<PassageSearch, SearchFault>>)
        requires
            self.wf(),
            loaded is Ok ==> (loaded->Ok_0).wf(),
            filter is Some ==> (filter->0).wf(),
        ensures
            if !self.registry@.contains_key(name@) {
                res is None
            } else {
                match loaded {
                    Err(fault) => res == Some(Err::<PassageSearch, SearchFault>(SearchFault::Io(fault))),
                    Ok(store) => if expired {
                        res == Some(Err::<PassageSearch, SearchFault>(SearchFault::DeadlineExceeded))
                    } else {
                        let floor = floor_of(self.options, self.registry@[name@].meta, floor_override);
                        let semantic = semantic_lane(
                            self.options,
                            swept.cue,
                            swept.vectors,
                            floor,
                            fusion::lane_views(swept.rows@),
                        );
                        &&& res matches Some(Ok(found)) && fusion::hit_views(found.hits@) == fusion::cut(
                            fusion::fusion(store@, fusion::lane_views(swept.lexical@), semantic, swept.scores),
                            limit,
                        ) && (found.lanes matches PassageSearchLanes::Ran { vector } && status_is(
                            self.options,
                            swept.cue,
                            swept.vectors,
                            floor,
                            vector,
                        )) && filter_report(store@, filter, found.filter)
                    },
                }
            },
    {
        let floor: u64 = match self.registry.get(name) {
            None => {
                return None;
            },
            Some(entry) => self.effective_semantic_floor(floor_override, &entry.meta),
        };
        let store = match loaded {
            Err(fault) => {
                return Some(Err(SearchFault::Io(fault)));
            },
            Ok(store) => store,
        };
        let report = match filter {
            None => None,
            Some(f) => {
                let eligible = eligible_sources(store, f);
                Some(SourceFilterReport { eligible: eligible.len(), total: store.len() })
            },
        };
        if expired {
            return Some(Err(SearchFault::DeadlineExceeded));
        }
        let (semantic, vector) = self.vector_lane(&swept.cue, &swept.vectors, &swept.rows, floor);
        let hits = fuse_passage_lanes(store, &swept.lexical, &semantic, &swept.scores, limit);
        Some(Ok(PassageSearch { hits, lanes: PassageSearchLanes::Ran { vector }, filter: report }))
    }
}

/// The floors' order of precedence: the call's own floor decides where it is
/// given, the context's where that is, the deployment's else.
pub proof fn floors_in_order_of_precedence(options: Options, meta: ContextMeta, own: u64)
    ensures
        floor_of(options, meta, Some(own)) == meta_ops::clamped(own),
        meta.semantic_floor is Some ==> floor_of(options, meta, None) == meta_ops::clamped(meta.semantic_floor->0),
        meta.semantic_floor is None ==> floor_of(options, meta, None) == meta_ops::clamped(options.semantic_floor),
{
}

/// A provider that fails degrades a search to the keyword lane: the vector
/// lane hands nothing over, and every hit keeps its keyword score.
pub proof fn failed_embedding_degrades(
    options: Options,
    cue: Cue,
    vectors: VectorFacts,
    floor: u64,
    rows: Seq<fusion::LaneView>,
    store: fusion::StoreMap,
    lexical: Seq<fusion::LaneView>,
    scores: RankScores,
    hits: Seq<fusion::HitView>,
    i: int,
)
    requires
        cue is Err,
        fusion::is_fusion(store, lexical, semantic_lane(options, cue, vectors, floor, rows), scores, hits),
        0 <= i < hits.len(),
    ensures
        hits[i].bm25 is Some && hits[i].score == (hits[i].bm25->0).1 && hits[i].vector is None,
{
    fusion::lexical_only_keeps_raw_scores(store, lexical, scores, hits, i);
}

/// Nothing below the floor reaches fusion.
pub proof fn rows_below_the_floor_are_dropped(rows: Seq<fusion::LaneView>, floor: u64, n: nat, i: int)
    requires
        n <= rows.len(),
        0 <= i < cleared_upto(rows, floor, n).len(),
    ensures
        clears_floor(cleared_upto(rows, floor, n)[i].score, floor),
    decreases n,
{
    if n > 0 {
        let rest = cleared_upto(rows, floor, (n - 1) as nat);
        if i < rest.len() {
            rows_below_the_floor_are_dropped(rows, floor, (n - 1) as nat, i);
        }
    }
}

/// Clearing the floor brings no new rows.
proof fn cleared_rows_are_rows(rows: Seq<fusion::LaneView>, floor: u64, n: nat, i: int) -> (j: int)
    requires
        n <= rows.len(),
        0 <= i < cleared_upto(rows, floor, n).len(),
    ensures
        0 <= j < n,
        rows[j] == cleared_upto(rows, floor, n)[i],
    decreases n,
{
    let rest = cleared_upto(rows, floor, (n - 1) as nat);
    if i < rest.len() {
        cleared_rows_are_rows(rows, floor, (n - 1) as nat, i)
    } else {
        n - 1
    }
}

/// A filtered search serves admitted sources only: where both lanes were
/// swept among the sources that the filter admits, so are all hits.
pub proof fn only_admitted_sources_are_served(
    options: Options,
    cue: Cue,
    vectors: VectorFacts,
    floor: u64,
    store: fusion::StoreMap,
    filter: SourceFilter,
    lexical: Seq<fusion::LaneView>,
    rows: Seq<fusion::LaneView>,
    scores: RankScores,
    limit: usize,
    i: int,
)
    requires
        forall|j: int| 0 <= j < lexical.len() ==> passages::eligible_in(store, filter).contains((#[trigger] lexical[j]).source),
        forall|j: int| 0 <= j < rows.len() ==> passages::eligible_in(store, filter).contains((#[trigger] rows[j]).source),
        0 <= i < fusion::cut(
            fusion::fusion(store, lexical, semantic_lane(options, cue, vectors, floor, rows), scores),
            limit,
        ).len(),
    ensures
        passages::eligible_in(store, filter).contains(
            fusion::cut(
                fusion::fusion(store, lexical, semantic_lane(options, cue, vectors, floor, rows), scores),
                limit,
            )[i].source,
        ),
{
    let semantic = semantic_lane(options, cue, vectors, floor, rows);
    fusion::hits_come_from_the_lanes(store, lexical, semantic, scores, i);
    let hit = fusion::fusion(store, lexical, semantic, scores)[i];
    if !(exists|j: int| 0 <= j < lexical.len() && fusion::is_about(#[trigger] lexical[j], hit.source, hit.index)) {
        let j = choose|j: int| 0 <= j < semantic.len() && fusion::is_about(#[trigger] semantic[j], hit.source, hit.index);
        let k = cleared_rows_are_rows(rows, floor, rows.len(), j);
        assert(rows[k].source == hit.source);
    }
}

/// A lane is swept four limits deep and at least fifty rows, so that fusion
/// finds what neither lane ranks among the first `limit`.
pub proof fn pools_are_four_limits_deep(limit: usize)
    ensures
        pool_for(limit) >= 50,
        pool_for(limit) >= limit,
        50 <= 4 * limit <= usize::MAX ==> pool_for(limit) == 4 * limit,
        4 * limit < 50 ==> pool_for(limit) == 50,
        4 * limit > usize::MAX ==> pool_for(limit) == usize::MAX,
{
}

/// A query asks for each of its terms once: the first of every key, in order.
/// What is returned is where each stands among all its terms.
pub proof fn queries_ask_each_key_once(all: Seq<terms::TermView>, n: nat) -> (at: Seq<int>)
    requires
        n <= all.len(),
    ensures
        picking::picks(
            all,
            n,
            |i: int| forall|j: int| 0 <= j < i ==> (#[trigger] all[j]).key != all[i].key,
            deduped_upto(all, n),
            at,
        ),
        forall|k: int, l: int|
            0 <= k < l < deduped_upto(all, n).len() ==> (#[trigger] deduped_upto(all, n)[k]).key != (
            #[trigger] deduped_upto(all, n)[l]).key,
        n == all.len() ==> deduped(all) == deduped_upto(all, n),
    decreases n,
{
    let p = |i: int| forall|j: int| 0 <= j < i ==> (#[trigger] all[j]).key != all[i].key;
    let at: Seq<int> = if n == 0 {
        Seq::empty()
    } else {
        let m = (n - 1) as nat;
        let before = queries_ask_each_key_once(all, m);
        assert(p(m as int) == is_first_of_key(all, m as int));
        picking::picks_on(all, m, p, deduped_upto(all, m), before, deduped_upto(all, n));
        picking::and_next(before, m, p(m as int))
    };
    let res = deduped_upto(all, n);
    assert forall|k: int, l: int| 0 <= k < l < res.len() implies (#[trigger] res[k]).key != (#[trigger] res[l]).key by {
        assert(at[k] < at[l]);
        assert(p(at[l]));
        assert(all[at[k]].key != all[at[l]].key);
    }
    at
}

/// The vector lane keeps exactly the rows that are at the floor or above, in
/// the order of the sweep; a row or a floor that is not a number keeps
/// nothing. What is returned is where each stands in the sweep.
pub proof fn rows_at_the_floor_are_kept(rows: Seq<fusion::LaneView>, floor: u64, n: nat) -> (at: Seq<int>)
    requires
        n <= rows.len(),
    ensures
        picking::picks(
            rows,
            n,
            |i: int|
                {
                    &&& rows[i].score >= floor
                    &&& 0x000f_ffff_ffff_ffff <= rows[i].score <= 0xfff0_0000_0000_0000
                    &&& 0x000f_ffff_ffff_ffff <= floor <= 0xfff0_0000_0000_0000
                },
            cleared_upto(rows, floor, n),
            at,
        ),
        n == rows.len() ==> cleared(rows, floor) == cleared_upto(rows, floor, n),
    decreases n,
{
    let p = |i: int|
        {
            &&& rows[i].score >= floor
            &&& 0x000f_ffff_ffff_ffff <= rows[i].score <= 0xfff0_0000_0000_0000
            &&& 0x000f_ffff_ffff_ffff <= floor <= 0xfff0_0000_0000_0000
        };
    if n == 0 {
        Seq::empty()
    } else {
        let m = (n - 1) as nat;
        let before = rows_at_the_floor_are_kept(rows, floor, m);
        meta_ops::floors_are_kept_between_zero_and_one(rows[m as int].score);
        meta_ops::floors_are_kept_between_zero_and_one(floor);
        assert(p(m as int) == clears_floor(rows[m as int].score, floor));
        picking::picks_on(rows, m, p, cleared_upto(rows, floor, m), before, cleared_upto(rows, floor, n));
        picking::and_next(before, m, p(m as int))
    }
}

/// The vector lane takes part exactly where the query was embedded, the
/// deployment embeds passages and has a provider, and there are vectors, of
/// that provider's model and of the query's width. What it says it did, and
/// what stands in its way, is the first of these that is not so.
pub proof fn the_vector_lane_says_what_it_did(
    options: Options,
    cue: Cue,
    vectors: VectorFacts,
    floor: u64,
    rows: Seq<fusion::LaneView>,
    status: VectorLaneStatus,
    gate: PassageVectorGate,
)
    requires
        status_is(options, cue, vectors, floor, status),
        gate_of(options, vectors, gate),
    ensures
        status is Ran <==> {
            &&& cue matches Ok(Some(width)) && width == vectors.dim
            &&& options.embed_passages
            &&& options.embedding_model matches Some(model) && model@ == vectors.model@
            &&& vectors.rows > 0
        },
        status is Ran <==> lane_runs(options, cue, vectors),
        status matches VectorLaneStatus::Ran { floor: f } ==> f == floor && semantic_lane(options, cue, vectors, floor, rows)
            == cleared(rows, floor),
        status !is Ran ==> semantic_lane(options, cue, vectors, floor, rows).len() == 0,
        status is QueryEmbeddingFailed <==> cue is Err,
        status is Off <==> cue == Ok::<Option<usize>, String>(None) || (cue is Ok && cue->Ok_0 is Some && !(
        options.embed_passages && options.embedding_model is Some)),
        status matches VectorLaneStatus::Off { provider_configured } ==> provider_configured
            == options.embedding_model is Some,
        status is NoVectors ==> vectors.rows == 0,
        status is ModelChanged ==> vectors.model@ != (options.embedding_model->0)@,
        status matches VectorLaneStatus::WidthChanged { stored_dim, current_dim } ==> stored_dim == vectors.dim && current_dim
            == cue->Ok_0->0 && stored_dim != current_dim,
        gate is Disabled <==> !(options.embed_passages && options.embedding_model is Some),
        gate is Ready ==> vectors.rows > 0 && options.embed_passages && vectors.model@ == (options.embedding_model->0)@,
        gate is Empty <==> options.embed_passages && options.embedding_model is Some && vectors.rows == 0,
        gate is ModelChanged ==> vectors.model@ != (options.embedding_model->0)@,
        embeds_passages(options) <==> options.embed_passages && options.embedding_model is Some,
{
}

/// A report on a filter counts the sources that the filter admits, of all
/// that there are; without a filter there is none.
pub proof fn reports_count_admitted_sources(
    store: fusion::StoreMap,
    filter: Option<&SourceFilter>,
    report: Option<SourceFilterReport>,
)
    requires
        store.dom().finite(),
        store.dom().len() <= usize::MAX,
        filter_report(store, filter, report),
    ensures
        report is Some <==> filter is Some,
        filter matches Some(f) ==> {
            let said = report->0;
            &&& said.total == store.dom().len()
            &&& said.eligible == store.dom().filter(|s: Seq<char>| f.admits(s, store[s])).len()
            &&& said.eligible <= said.total
            &&& (forall|s: Seq<char>| #[trigger] store.contains_key(s) ==> f.admits(s, store[s])) ==> said.eligible == said.total
            &&& (forall|s: Seq<char>| #[trigger] store.contains_key(s) ==> !f.admits(s, store[s])) ==> said.eligible == 0
        },
{
    if let Some(f) = filter {
        let admitted = store.dom().filter(|s: Seq<char>| f.admits(s, store[s]));
        assert(admitted =~= passages::eligible_in(store, *f));
        vstd::set_lib::lemma_len_subset(admitted, store.dom());
        if forall|s: Seq<char>| #[trigger] store.contains_key(s) ==> f.admits(s, store[s]) {
            assert(admitted =~= store.dom());
        }
        if forall|s: Seq<char>| #[trigger] store.contains_key(s) ==> !f.admits(s, store[s]) {
            assert(admitted =~= Set::<Seq<char>>::empty());
        }
    }
}

/// Where the vector lane is kept from running, what it says names the cause:
/// the provider's own words, or the two models.
pub proof fn the_vector_lane_names_its_cause(
    options: Options,
    cue: Cue,
    vectors: VectorFacts,
    floor: u64,
    status: VectorLaneStatus,
    gate: PassageVectorGate,
)
    requires
        status_is(options, cue, vectors, floor, status),
        gate_of(options, vectors, gate),
    ensures
        status matches VectorLaneStatus::QueryEmbeddingFailed(s) ==> s@ == cue->Err_0@,
        status matches VectorLaneStatus::ModelChanged { stored, current } ==> stored@ == vectors.model@ && current@ == (
        options.embedding_model->0)@,
        gate matches PassageVectorGate::ModelChanged { stored, current } ==> stored@ == vectors.model@ && current@ == (
        options.embedding_model->0)@,
        embeds_passages(options) && (cue matches Ok(Some(_))) && vectors.rows == 0 ==> status is NoVectors,
        embeds_passages(options) && (cue matches Ok(Some(_))) && vectors.rows > 0 && vectors.model@ != (
        options.embedding_model->0)@ ==> status is ModelChanged,
        embeds_passages(options) && vectors.rows > 0 && vectors.model@ == (options.embedding_model->0)@ ==> (cue matches Ok(
            Some(width),
        ) ==> (width != vectors.dim <==> status is WidthChanged)),
        embeds_passages(options) && vectors.rows > 0 ==> (gate is Ready <==> vectors.model@ == (options.embedding_model->0)@),
{
}

} // verus!
