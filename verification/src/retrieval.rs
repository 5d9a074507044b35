//! The two cache tiers as the registry consults them: the exact one first,
//! then the semantic one.
use crate::names;
use crate::query_guard;
use crate::query_guard::queries_agree;
use crate::retrieval_cache;
use crate::retrieval_cache::{CachedRetrieval, RetrievalCacheOp, RetrievalKey, TargetFingerprint, op_lanes};
use crate::search;
use crate::semantic_cache;
use crate::semantic_cache::{Candidate, SemanticBucket};
use crate::state;
use crate::state::{AppState, Metrics};
use crate::text;
use crate::text::is_blank;
use vstd::prelude::*;

verus! {

/// A semantic hit: the canonical's cached response, the canonical query and
/// the rank of its cosine.
pub struct SemanticServe {
    pub value: CachedRetrieval,
    pub canonical: String,
    pub similarity: u64,
}

pub struct ServeView {
    pub value: retrieval_cache::CachedView,
    pub canonical: Seq<char>,
    pub similarity: u64,
}

impl View for SemanticServe {
    type V = ServeView;

    open spec fn view(&self) -> ServeView {
        ServeView { value: self.value@, canonical: self.canonical@, similarity: self.similarity }
    }
}

/// What one consultation of the semantic tier hands back.
pub struct SemanticProbe {
    pub served: Option<SemanticServe>,
}

/// What a fresh fill is registered with: the parameters without the query,
/// the query, the caller's handle on its embedding, and the ranks of its
/// cosines with [`AppState::semantic_embeddings`].
pub struct SemanticFill {
    pub params: String,
    pub query: String,
    pub embedding: u64,
    pub cosines: Vec<u64>,
}

/// How a consultation of the semantic tier ended.
#[derive(Clone, Copy, PartialEq, Eq, Structural, Debug)]
pub enum SemanticCacheOutcome {
    /// A claim held and its entry was live.
    Hit,
    /// A claim held but the corpus moved on.
    Stale,
    /// The guard refused every claim that cleared the threshold.
    Guarded,
    /// No claim cleared the threshold.
    Miss,
}

/// The counters with one more outcome.
pub open spec fn outcome_counted(m: Metrics, outcome: SemanticCacheOutcome) -> Metrics {
    match outcome {
        SemanticCacheOutcome::Hit => Metrics { semantic_hits: m.semantic_hits.wrapping_add(1), ..m },
        SemanticCacheOutcome::Stale => Metrics { semantic_stale: m.semantic_stale.wrapping_add(1), ..m },
        SemanticCacheOutcome::Guarded => Metrics { semantic_guarded: m.semantic_guarded.wrapping_add(1), ..m },
        SemanticCacheOutcome::Miss => Metrics { semantic_misses: m.semantic_misses.wrapping_add(1), ..m },
    }
}

impl Metrics {
    /// Counts one consultation of the semantic tier.
    pub fn record_semantic_cache(&mut self, outcome: SemanticCacheOutcome)
        ensures
            *final(self) == outcome_counted(*old(self), outcome),
    {
        match outcome {
            SemanticCacheOutcome::Hit => {
                self.semantic_hits = self.semantic_hits.wrapping_add(1);
            },
            SemanticCacheOutcome::Stale => {
                self.semantic_stale = self.semantic_stale.wrapping_add(1);
            },
            SemanticCacheOutcome::Guarded => {
                self.semantic_guarded = self.semantic_guarded.wrapping_add(1);
            },
            SemanticCacheOutcome::Miss => {
                self.semantic_misses = self.semantic_misses.wrapping_add(1);
            },
        }
    }
}

/// A registered context's part of a key.
pub open spec fn fingerprint(state: AppState, op: RetrievalCacheOp, name: Seq<char>) -> retrieval_cache::FingerprintView {
    let e = state.registry@[name];
    retrieval_cache::FingerprintView {
        name,
        identity: e.cache_identity,
        lanes: retrieval_cache::lanes_of(op, e.spec_revision()),
    }
}

/// The key of one retrieval request.
pub open spec fn key_of(state: AppState, op: RetrievalCacheOp, targets: Seq<Seq<char>>, params: Seq<char>) -> retrieval_cache::KeyView {
    retrieval_cache::KeyView {
        op,
        targets: targets.map_values(|n: Seq<char>| fingerprint(state, op, n)),
        params,
    }
}

/// Every name is registered.
pub open spec fn all_registered(state: AppState, targets: Seq<Seq<char>>) -> bool {
    forall|i: int| 0 <= i < targets.len() ==> state.registry@.contains_key(#[trigger] targets[i])
}

/// The semantic tier runs at all: it has a threshold, passages are embedded,
/// and the query is not blank.
pub open spec fn semantic_runs(state: AppState, query: Seq<char>) -> bool {
    state.semantic_cache@.threshold is Some && search::embeds_passages(state.options) && !text::blank(query)
}

/// The candidate at `k` is the first that the guard lets through.
pub open spec fn decides(found: Seq<semantic_cache::CandidateView>, query: Seq<char>, k: int) -> bool {
    &&& 0 <= k < found.len() && query_guard::agree(query, found[k].query)
    &&& forall|j: int| 0 <= j < k ==> !query_guard::agree(query, (#[trigger] found[j]).query)
}

/// The key that a claim rewrites a request to: the same operation and the
/// same current fingerprints, with the canonical's parameters.
pub open spec fn rewritten(key: retrieval_cache::KeyView, found: semantic_cache::CandidateView) -> retrieval_cache::KeyView {
    retrieval_cache::KeyView { params: found.params, ..key }
}

/// What a consultation with these candidates does and serves.
pub open spec fn probe_is(
    before: AppState,
    after: AppState,
    key: retrieval_cache::KeyView,
    query: Seq<char>,
    found: Seq<semantic_cache::CandidateView>,
    served: Option<ServeView>,
) -> bool {
    let cache = before.retrieval_cache@;
    if found.len() == 0 {
        &&& served is None
        &&& after.retrieval_cache@ == cache
        &&& after.metrics == outcome_counted(before.metrics, SemanticCacheOutcome::Miss)
    } else if exists|k: int| decides(found, query, k) {
        let k = choose|k: int| decides(found, query, k);
        let asked = rewritten(key, found[k]);
        &&& after.retrieval_cache@ == cache.touched(asked)
        &&& if cache.holds(asked) {
            &&& served == Some(
                ServeView {
                    value: cache.slots[cache.place(asked)].value,
                    canonical: found[k].query,
                    similarity: found[k].similarity,
                },
            )
            &&& after.metrics == outcome_counted(before.metrics, SemanticCacheOutcome::Hit)
        } else {
            &&& served is None
            &&& after.metrics == outcome_counted(before.metrics, SemanticCacheOutcome::Stale)
        }
    } else {
        &&& served is None
        &&& after.retrieval_cache@ == cache
        &&& after.metrics == outcome_counted(before.metrics, SemanticCacheOutcome::Guarded)
    }
}

pub open spec fn served_view(probe: SemanticProbe) -> Option<ServeView> {
    match probe.served {
        Some(s) => Some(s@),
        None => None,
    }
}

impl AppState {
    /// The key of one retrieval request, or `None` where the response is
    /// computed fresh and served uncounted: the cache is disabled, there are
    /// no parameters, or a target is not registered. The key is taken before
    /// the search runs.
    pub fn retrieval_key(&self, op: RetrievalCacheOp, targets: &Vec<String>, params: Option<String>) -> (res: Option<
        RetrievalKey,
    >)
        requires
            self.wf(),
        ensures
            match res {
                Some(key) => {
                    &&& self.retrieval_cache@.budget != 0
                    &&& params is Some
                    &&& all_registered(*self, names::views(targets@))
                    &&& key@ == key_of(*self, op, names::views(targets@), params->0@)
                    &&& self.nonces_fresh() ==> state::given_out(key@, self.next_identity)
                },
                None => self.retrieval_cache@.budget == 0 || params is None || !all_registered(
                    *self,
                    names::views(targets@),
                ),
            },
    {
        if !self.retrieval_cache.is_enabled() {
            return None;
        }
        let params = match params {
            Some(p) => p,
            None => {
                return None;
            },
        };
        let ghost wanted = names::views(targets@);
        let mut prints: Vec<TargetFingerprint> = Vec::new();
        let mut i: usize = 0;
        while i < targets.len()
            invariant
                self.wf(),
                wanted == names::views(targets@),
                i <= targets.len(),
                forall|j: int| 0 <= j < i ==> self.registry@.contains_key(#[trigger] wanted[j]),
                retrieval_cache::fingerprint_views(prints@) == wanted.take(i as int).map_values(
                    |n: Seq<char>| fingerprint(*self, op, n),
                ),
            decreases targets.len() - i,
        {
            let name = &targets[i];
            assert(wanted[i as int] == name@);
            match self.registry.get(name.as_str()) {
                Some(entry) => {
                    let print = TargetFingerprint {
                        name: name.clone(),
                        identity: entry.cache_identity,
                        lanes: op_lanes(op, entry.revision_snapshot()),
                    };
                    let ghost was = prints@;
                    prints.push(print);
                    assert(retrieval_cache::fingerprint_views(prints@)
                        =~= retrieval_cache::fingerprint_views(was).push(print@));
                    assert(retrieval_cache::fingerprint_views(prints@) =~= wanted.take(i + 1).map_values(
                        |n: Seq<char>| fingerprint(*self, op, n),
                    ));
                },
                None => {
                    assert(!self.registry@.contains_key(wanted[i as int]));
                    return None;
                },
            }
            i = i + 1;
        }
        assert(wanted.take(wanted.len() as int) =~= wanted);
        Some(RetrievalKey { op, targets: prints, params })
    }

    /// One consultation of the exact tier, counted as a hit or a miss.
    pub fn retrieval_lookup(&mut self, key: &RetrievalKey) -> (res: Option<CachedRetrieval>)
        requires
            old(self).wf(),
        ensures
            final(self).wf(),
            old(self).nonces_kept(*final(self)),
            *final(self) == (AppState {
                retrieval_cache: final(self).retrieval_cache,
                metrics: final(self).metrics,
                ..*old(self)
            }),
            final(self).retrieval_cache@ == old(self).retrieval_cache@.touched(key@),
            final(self).metrics == if old(self).retrieval_cache@.holds(key@) {
                Metrics { retrieval_hits: old(self).metrics.retrieval_hits.plus_one(key@.op), ..old(self).metrics }
            } else {
                Metrics { retrieval_misses: old(self).metrics.retrieval_misses.plus_one(key@.op), ..old(self).metrics }
            },
            match res {
                Some(value) => old(self).retrieval_cache@.holds(key@) && value@ == old(
                    self,
                ).retrieval_cache@.slots[old(self).retrieval_cache@.place(key@)].value,
                None => !old(self).retrieval_cache@.holds(key@),
            },
    {
        let found = self.retrieval_cache.lookup(key);
        if found.is_some() {
            self.metrics.retrieval_hits.count(key.op);
        } else {
            self.metrics.retrieval_misses.count(key.op);
        }
        found
    }

    /// The semantic tier's read of a rewritten key: the same lookup, not
    /// counted, so that one request does not read as two.
    pub fn retrieval_lookup_uncounted(&mut self, key: &RetrievalKey) -> (res: Option<CachedRetrieval>)
        requires
            old(self).wf(),
        ensures
            final(self).wf(),
            old(self).nonces_kept(*final(self)),
            *final(self) == (AppState { retrieval_cache: final(self).retrieval_cache, ..*old(self) }),
            final(self).retrieval_cache@ == old(self).retrieval_cache@.touched(key@),
            match res {
                Some(value) => old(self).retrieval_cache@.holds(key@) && value@ == old(
                    self,
                ).retrieval_cache@.slots[old(self).retrieval_cache@.place(key@)].value,
                None => !old(self).retrieval_cache@.holds(key@),
            },
    {
        self.retrieval_cache.lookup(key)
    }

    /// Files a computed response under its key.
    pub fn retrieval_store(&mut self, key: RetrievalKey, value: CachedRetrieval)
        requires
            old(self).wf(),
        ensures
            final(self).wf(),
            state::given_out(key@, old(self).next_identity) ==> old(self).nonces_kept(*final(self)),
            *final(self) == (AppState { retrieval_cache: final(self).retrieval_cache, ..*old(self) }),
            final(self).retrieval_cache@ == old(self).retrieval_cache@.filed(key@, value@),
    {
        let ghost filed = key@;
        let ghost content = value@;
        self.retrieval_cache.insert(key, value);
        proof {
            let was = old(self).retrieval_cache@;
            let now = self.retrieval_cache@;
            assert forall|i: int|
                0 <= i < now.slots.len() && old(self).nonces_fresh() && state::given_out(filed, old(self).next_identity) implies state::given_out(
                (#[trigger] now.slots[i]).key,
                self.next_identity,
            ) by {
                retrieval_cache::filing_brings_one_key(was, filed, content, i);
            }
        }
    }

    /// How many responses the exact tier holds, and their bytes.
    pub fn retrieval_cache_gauges(&self) -> (res: (u64, u64))
        requires
            self.wf(),
        ensures
            res.0 == self.retrieval_cache@.slots.len(),
            res.1 == retrieval_cache::total_cost(self.retrieval_cache@.slots),
    {
        (self.retrieval_cache.len() as u64, self.retrieval_cache.bytes() as u64)
    }

    /// Whether the query is to be embedded for the semantic tier.
    pub fn semantic_wants(&self, query: &str) -> (res: bool)
        requires
            self.wf(),
        ensures
            res == semantic_runs(*self, query@),
    {
        self.semantic_cache.is_enabled() && self.passage_embedding_enabled() && !is_blank(query)
    }

    /// The handles of the embeddings that a request's query is compared
    /// with, in claim order.
    pub fn semantic_embeddings(&self, key: &RetrievalKey, sans_query_params: &str) -> (res: Vec<u64>)
        requires
            self.wf(),
        ensures
            res@ == semantic_cache::handles_of(
                self.semantic_cache@.claims(semantic_cache::bucket_of(key@, sans_query_params@)),
            ),
    {
        let bucket = SemanticBucket::of(key, sans_query_params);
        self.semantic_cache.embeddings(&bucket)
    }

    /// The handles on every embedding that the semantic tier still holds.
    pub fn semantic_handles(&self) -> (res: Vec<u64>)
        ensures
            res@ == semantic_cache::handles_upto(self.semantic_cache@.clusters, self.semantic_cache@.clusters.len()),
    {
        self.semantic_cache.handles()
    }

    /// One consultation of the semantic tier, after the request's own key
    /// missed. `cosines` holds the rank of the query's cosine with each of
    /// [`AppState::semantic_embeddings`], or is `None` where the provider
    /// refused to embed the query. `None` means that the tier did not run:
    /// nothing is counted. The first candidate that the guard lets through
    /// decides, also where its entry is stale.
    pub fn semantic_retrieval(
        &mut self,
        key: &RetrievalKey,
        sans_query_params: &str,
        query: &str,
        cosines: Option<Vec<u64>>,
    ) -> (res: Option<SemanticProbe>)
        requires
            old(self).wf(),
        ensures
            final(self).wf(),
            old(self).nonces_kept(*final(self)),
            *final(self) == (AppState {
                retrieval_cache: final(self).retrieval_cache,
                semantic_cache: final(self).semantic_cache,
                metrics: final(self).metrics,
                ..*old(self)
            }),
            res is Some == (semantic_runs(*old(self), query@) && cosines is Some),
            res is None ==> *final(self) == *old(self),
            res is Some ==> {
                let bucket = semantic_cache::bucket_of(key@, sans_query_params@);
                let index = old(self).semantic_cache@;
                &&& final(self).semantic_cache@ == index.scanned(bucket, cosines->0@)
                &&& exists|found: Seq<semantic_cache::CandidateView>| #[trigger]
                    semantic_cache::candidates_are(index.claims(bucket), cosines->0@, index.threshold->0, found)
                        && probe_is(*old(self), *final(self), key@, query@, found, served_view(res->0))
            },
    {
        if !self.semantic_wants(query) {
            return None;
        }
        let ranks = match &cosines {
            Some(c) => c,
            None => {
                return None;
            },
        };
        let bucket = SemanticBucket::of(key, sans_query_params);
        let candidates = self.semantic_cache.candidates(&bucket, ranks);
        let ghost found = candidates@.map_values(|c: Candidate| c@);
        if candidates.len() == 0 {
            self.metrics.record_semantic_cache(SemanticCacheOutcome::Miss);
            let res = SemanticProbe { served: None };
            assert(probe_is(*old(self), *self, key@, query@, found, served_view(res)));
            return Some(res);
        }
        let mut i: usize = 0;
        while i < candidates.len()
            invariant
                found == candidates@.map_values(|c: Candidate| c@),
                i <= candidates.len(),
                forall|j: int| 0 <= j < i ==> !query_guard::agree(query@, (#[trigger] found[j]).query),
                candidates.len() > 0,
                cosines == Some(*ranks),
                self.wf(),
                old(self).wf(),
                *self == (AppState { semantic_cache: self.semantic_cache, ..*old(self) }),
                semantic_runs(*old(self), query@),
                bucket@ == semantic_cache::bucket_of(key@, sans_query_params@),
                self.semantic_cache@ == old(self).semantic_cache@.scanned(bucket@, ranks@),
                semantic_cache::candidates_are(
                    old(self).semantic_cache@.claims(bucket@),
                    ranks@,
                    old(self).semantic_cache@.threshold->0,
                    found,
                ),
            decreases candidates.len() - i,
        {
            let candidate = &candidates[i];
            assert(found[i as int] == candidate@);
            if queries_agree(query, candidate.query.as_str()) {
                proof {
                    assert(decides(found, query@, i as int));
                    let k = choose|k: int| decides(found, query@, k);
                    assert(k == i) by {
                        if k < i {
                            assert(!query_guard::agree(query@, found[k].query));
                        } else if i < k {
                            assert(!query_guard::agree(query@, found[i as int].query));
                        }
                    }
                }
                let asked = key.with_params(candidate.params.clone());
                assert(asked@ == rewritten(key@, found[i as int]));
                match self.retrieval_lookup_uncounted(&asked) {
                    Some(value) => {
                        self.metrics.record_semantic_cache(SemanticCacheOutcome::Hit);
                        let serve = SemanticServe {
                            value,
                            canonical: candidate.query.clone(),
                            similarity: candidate.similarity,
                        };
                        let res = SemanticProbe { served: Some(serve) };
                        assert(probe_is(*old(self), *self, key@, query@, found, served_view(res)));
                        return Some(res);
                    },
                    None => {
                        self.metrics.record_semantic_cache(SemanticCacheOutcome::Stale);
                        let res = SemanticProbe { served: None };
                        assert(probe_is(*old(self), *self, key@, query@, found, served_view(res)));
                        return Some(res);
                    },
                }
            }
            i = i + 1;
        }
        self.metrics.record_semantic_cache(SemanticCacheOutcome::Guarded);
        let res = SemanticProbe { served: None };
        proof {
            assert forall|k: int| !decides(found, query@, k) by {
                if decides(found, query@, k) {
                    assert(!query_guard::agree(query@, found[k].query));
                }
            }
            assert(probe_is(*old(self), *self, key@, query@, found, served_view(res)));
        }
        Some(res)
    }

    /// Files a fresh fill's claim beside its exact entry.
    pub fn semantic_register(&mut self, key: &RetrievalKey, fill: SemanticFill)
        requires
            old(self).wf(),
        ensures
            final(self).wf(),
            old(self).nonces_kept(*final(self)),
            *final(self) == (AppState { semantic_cache: final(self).semantic_cache, ..*old(self) }),
            final(self).semantic_cache@ == old(self).semantic_cache@.registered(
                semantic_cache::bucket_of(key@, fill.params@),
                fill.query@,
                fill.embedding,
                key@.params,
                fill.cosines@,
            ),
    {
        let bucket = SemanticBucket::of(key, fill.params.as_str());
        self.semantic_cache.register(bucket, fill.query.as_str(), fill.embedding, key.params.as_str(), &fill.cosines);
    }

    /// How many claims the semantic tier holds.
    pub fn semantic_cache_entries(&self) -> (res: u64)
        requires
            self.wf(),
        ensures
            res == semantic_cache::claim_count(self.semantic_cache@.clusters),
    {
        self.semantic_cache.len() as u64
    }
}

/// A request whose corpus state moved in a lane that the operation depends
/// on, or whose context is another incarnation, has another key: nothing
/// that was filed before answers it, through either tier.
pub proof fn moved_corpus_is_never_served(
    before: AppState,
    after: AppState,
    op: RetrievalCacheOp,
    targets: Seq<Seq<char>>,
    params: Seq<char>,
    later: Seq<char>,
    i: int,
)
    requires
        0 <= i < targets.len(),
        fingerprint(before, op, targets[i]) != fingerprint(after, op, targets[i]),
    ensures
        key_of(before, op, targets, params) != key_of(after, op, targets, later),
        forall|found: semantic_cache::CandidateView|
            #[trigger] rewritten(key_of(after, op, targets, later), found) != key_of(before, op, targets, params),
{
    let a = key_of(before, op, targets, params);
    let b = key_of(after, op, targets, later);
    assert(a.targets[i] == fingerprint(before, op, targets[i]));
    assert(b.targets[i] == fingerprint(after, op, targets[i]));
    assert forall|found: semantic_cache::CandidateView| #[trigger] rewritten(b, found) != a by {
        assert(rewritten(b, found).targets == b.targets);
    }
}

/// What was filed for an incarnation of a context that is gone, by a delete,
/// a refresh or a new schema, is never served again: no later key equals its
/// key, also not as the semantic tier rewrites one.
pub proof fn gone_incarnations_are_never_served(
    states: Seq<AppState>,
    key: retrieval_cache::KeyView,
    t: int,
    op: RetrievalCacheOp,
    targets: Seq<Seq<char>>,
    params: Seq<char>,
)
    requires
        states.len() > 0,
        state::is_history(states),
        state::given_out(key, states[0].next_identity),
        0 <= t < key.targets.len(),
        !states[0].bears(key.targets[t].name, key.targets[t].identity),
        all_registered(states.last(), targets),
    ensures
        key_of(states.last(), op, targets, params) != key,
        forall|found: semantic_cache::CandidateView|
            #[trigger] rewritten(key_of(states.last(), op, targets, params), found) != key,
{
    state::history_keeps_nonces(states);
    let now = states.last();
    let later = key_of(now, op, targets, params);
    let gone = key.targets[t];
    assert(!now.bears(gone.name, gone.identity));
    if later.targets == key.targets {
        assert(later.targets[t] == fingerprint(now, op, targets[t]));
        assert(now.registry@.contains_key(targets[t]));
        assert(now.bears(gone.name, gone.identity));
    }
    assert forall|found: semantic_cache::CandidateView| #[trigger] rewritten(later, found) != key by {
        assert(rewritten(later, found).targets == later.targets);
    }
}

/// A semantic hit files nothing: what the exact tier holds stays the same,
/// whichever key was asked for.
pub proof fn semantic_hits_file_nothing(cache: retrieval_cache::CacheView, asked: retrieval_cache::KeyView, other: retrieval_cache::KeyView)
    ensures
        cache.touched(asked).holds(other) == cache.holds(other),
        cache.touched(asked).slots.len() == cache.slots.len(),
{
    let after = cache.touched(asked);
    if cache.holds(asked) {
        let p = cache.place(asked);
        assert(cache.filed_at(asked, p));
        if cache.holds(other) {
            let q = cache.place(other);
            assert(cache.filed_at(other, q));
            if q < p {
                assert(after.filed_at(other, q));
            } else if q == p {
                assert(after.filed_at(other, after.slots.len() - 1));
            } else {
                assert(after.filed_at(other, q - 1));
            }
        }
        if after.holds(other) {
            let q = after.place(other);
            assert(after.filed_at(other, q));
            if q == after.slots.len() - 1 {
                assert(cache.filed_at(other, p));
            } else if q < p {
                assert(cache.filed_at(other, q));
            } else {
                assert(cache.filed_at(other, q + 1));
            }
        }
    }
}

/// A paraphrase is served only what was filed for a query that the guard
/// finds to ask the same, whose cosine clears the threshold.
pub proof fn served_paraphrases_agree(
    before: AppState,
    after: AppState,
    key: retrieval_cache::KeyView,
    query: Seq<char>,
    claims: Seq<semantic_cache::SlotView>,
    cosines: Seq<u64>,
    threshold: u64,
    found: Seq<semantic_cache::CandidateView>,
    served: ServeView,
)
    requires
        semantic_cache::candidates_are(claims, cosines, threshold, found),
        probe_is(before, after, key, query, found, Some(served)),
    ensures
        query_guard::agree(query, served.canonical),
        crate::search::clears_floor(served.similarity, threshold),
        exists|k: int| 0 <= k < found.len() && before.retrieval_cache@.holds(rewritten(key, #[trigger] found[k])),
{
    let k = choose|k: int| decides(found, query, k);
    assert(decides(found, query, k));
    semantic_cache::candidates_clear_in_order(claims, cosines, threshold, found, k);
    assert(before.retrieval_cache@.holds(rewritten(key, found[k])));
}

/// Every consultation adds one to the counter of its own outcome and to no
/// other.
pub proof fn outcomes_count_one(m: Metrics, outcome: SemanticCacheOutcome)
    ensures
        ({
            let after = outcome_counted(m, outcome);
            &&& after.semantic_hits == if outcome is Hit {
                m.semantic_hits.wrapping_add(1)
            } else {
                m.semantic_hits
            }
            &&& after.semantic_stale == if outcome is Stale {
                m.semantic_stale.wrapping_add(1)
            } else {
                m.semantic_stale
            }
            &&& after.semantic_guarded == if outcome is Guarded {
                m.semantic_guarded.wrapping_add(1)
            } else {
                m.semantic_guarded
            }
            &&& after.semantic_misses == if outcome is Miss {
                m.semantic_misses.wrapping_add(1)
            } else {
                m.semantic_misses
            }
            &&& (Metrics {
                semantic_hits: m.semantic_hits,
                semantic_stale: m.semantic_stale,
                semantic_guarded: m.semantic_guarded,
                semantic_misses: m.semantic_misses,
                ..after
            }) == m
        }),
{
}

/// Two requests have one key exactly where they are the same operation with
/// the same parameters on the same contexts in the same order, and each
/// context has the same identity and the same revisions of what the operation
/// rests on.
pub proof fn keys_tell_requests_apart(
    a: AppState,
    b: AppState,
    op: RetrievalCacheOp,
    op2: RetrievalCacheOp,
    targets: Seq<Seq<char>>,
    targets2: Seq<Seq<char>>,
    params: Seq<char>,
    params2: Seq<char>,
)
    ensures
        key_of(a, op, targets, params) == key_of(b, op2, targets2, params2) <==> {
            &&& op == op2
            &&& params == params2
            &&& targets == targets2
            &&& forall|i: int|
                0 <= i < targets.len() ==> {
                    let x = a.registry@[#[trigger] targets[i]];
                    let y = b.registry@[targets[i]];
                    &&& x.cache_identity == y.cache_identity
                    &&& x.passage_revision == y.passage_revision
                    &&& op is Recall || op is Query ==> x.graph_revision == y.graph_revision
                    &&& op is SearchPassages || op is SearchCommunities ==> x.config_revision == y.config_revision
                }
        },
{
    let x = key_of(a, op, targets, params);
    let y = key_of(b, op2, targets2, params2);
    if x == y {
        assert(x.targets.len() == targets.len() && y.targets.len() == targets2.len());
        assert forall|i: int| 0 <= i < targets.len() implies #[trigger] targets[i] == targets2[i] by {
            assert(x.targets[i].name == targets[i]);
            assert(y.targets[i].name == targets2[i]);
        }
        assert(targets =~= targets2);
        assert forall|i: int| 0 <= i < targets.len() implies {
            let e = a.registry@[#[trigger] targets[i]];
            let f = b.registry@[targets[i]];
            &&& e.cache_identity == f.cache_identity
            &&& e.passage_revision == f.passage_revision
            &&& op is Recall || op is Query ==> e.graph_revision == f.graph_revision
            &&& op is SearchPassages || op is SearchCommunities ==> e.config_revision == f.config_revision
        } by {
            assert(x.targets[i] == y.targets[i]);
            assert(x.targets[i] == fingerprint(a, op, targets[i]));
            assert(y.targets[i] == fingerprint(b, op2, targets2[i]));
            retrieval_cache::lanes_are_what_an_answer_rests_on(
                op,
                a.registry@[targets[i]].spec_revision(),
                b.registry@[targets[i]].spec_revision(),
            );
        }
    }
    if op == op2 && params == params2 && targets == targets2 && (forall|i: int|
        0 <= i < targets.len() ==> {
            let e = a.registry@[#[trigger] targets[i]];
            let f = b.registry@[targets[i]];
            &&& e.cache_identity == f.cache_identity
            &&& e.passage_revision == f.passage_revision
            &&& op is Recall || op is Query ==> e.graph_revision == f.graph_revision
            &&& op is SearchPassages || op is SearchCommunities ==> e.config_revision == f.config_revision
        }) {
        assert forall|i: int| 0 <= i < x.targets.len() implies x.targets[i] == y.targets[i] by {
            let name = targets[i];
            assert(x.targets[i] == fingerprint(a, op, name));
            assert(y.targets[i] == fingerprint(b, op, name));
        }
        assert(x.targets =~= y.targets);
    }
}

/// The semantic tier is asked exactly where it has a threshold, passages are
/// embedded, there is a provider, and the query says something.
pub proof fn the_semantic_tier_is_asked(state: AppState, query: Seq<char>)
    ensures
        semantic_runs(state, query) <==> {
            &&& state.semantic_cache@.threshold is Some
            &&& state.options.embed_passages
            &&& state.options.embedding_model is Some
            &&& exists|i: int| 0 <= i < query.len() && !text::whitespace(#[trigger] query[i])
        },
{
}

/// A paraphrase is answered by the first candidate that the guard lets
/// through and by no other: it is served what is filed under its own
/// operation and fingerprints with that candidate's parameters, where that is
/// still there. Each way of ending is counted once.
pub proof fn the_first_agreeing_candidate_answers(
    before: AppState,
    after: AppState,
    key: retrieval_cache::KeyView,
    query: Seq<char>,
    found: Seq<semantic_cache::CandidateView>,
    served: Option<ServeView>,
    k: int,
    i: int,
)
    requires
        retrieval_cache::cache_ok(before.retrieval_cache@),
        probe_is(before, after, key, query, found, served),
    ensures
        ({
            let slots = before.retrieval_cache@.slots;
            let first = 0 <= k < found.len() && query_guard::agree(query, found[k].query) && forall|j: int|
                0 <= j < k ==> !query_guard::agree(query, (#[trigger] found[j]).query);
            let m = before.metrics;
            let n = after.metrics;
            &&& found.len() == 0 ==> served is None && n.semantic_misses == m.semantic_misses.wrapping_add(1)
            &&& found.len() > 0 && (forall|j: int|
                0 <= j < found.len() ==> !query_guard::agree(query, (#[trigger] found[j]).query)) ==> served is None
                && n.semantic_guarded == m.semantic_guarded.wrapping_add(1)
            &&& first && 0 <= i < slots.len() && slots[i].key.op == key.op && slots[i].key.targets == key.targets
                && slots[i].key.params == found[k].params ==> {
                &&& served == Some(
                    ServeView { value: slots[i].value, canonical: found[k].query, similarity: found[k].similarity },
                )
                &&& n.semantic_hits == m.semantic_hits.wrapping_add(1)
                &&& after.retrieval_cache@.slots.last() == slots[i]
            }
            &&& first && (forall|l: int|
                0 <= l < slots.len() ==> (#[trigger] slots[l]).key.op != key.op || slots[l].key.targets != key.targets
                    || slots[l].key.params != found[k].params) ==> served is None && n.semantic_stale
                == m.semantic_stale.wrapping_add(1)
        }),
{
    let cache = before.retrieval_cache@;
    let first = 0 <= k < found.len() && query_guard::agree(query, found[k].query) && forall|j: int|
        0 <= j < k ==> !query_guard::agree(query, (#[trigger] found[j]).query);
    if first {
        assert(decides(found, query, k));
        let d = choose|d: int| decides(found, query, d);
        assert(decides(found, query, d));
        if d < k {
            assert(!query_guard::agree(query, found[d].query));
        } else if k < d {
            assert(!query_guard::agree(query, found[k].query));
        }
        let asked = rewritten(key, found[k]);
        retrieval_cache::lookups_keep_every_slot(cache, asked, i, 0);
        if 0 <= i < cache.slots.len() && cache.slots[i].key == asked {
            assert(cache.filed_at(asked, i));
            let p = cache.place(asked);
            assert(cache.filed_at(asked, p));
            assert(cache.slots[p].key == cache.slots[i].key);
        }
        if forall|l: int|
            0 <= l < cache.slots.len() ==> (#[trigger] cache.slots[l]).key.op != key.op || cache.slots[l].key.targets
                != key.targets || cache.slots[l].key.params != found[k].params {
            if cache.holds(asked) {
                let p = cache.place(asked);
                assert(cache.filed_at(asked, p));
                assert(cache.slots[p].key.op == key.op);
            }
        }
    } else if exists|d: int| decides(found, query, d) {
        let d = choose|d: int| decides(found, query, d);
        assert(query_guard::agree(query, found[d].query));
    }
}

/// A consultation that no candidate decides leaves the cache as it was; one
/// that a candidate decides moves no more than the slot that it asked for.
pub proof fn consultations_file_and_drop_nothing(
    before: AppState,
    after: AppState,
    key: retrieval_cache::KeyView,
    query: Seq<char>,
    found: Seq<semantic_cache::CandidateView>,
    served: Option<ServeView>,
)
    requires
        retrieval_cache::cache_ok(before.retrieval_cache@),
        probe_is(before, after, key, query, found, served),
    ensures
        (forall|j: int| 0 <= j < found.len() ==> !query_guard::agree(query, (#[trigger] found[j]).query))
            ==> after.retrieval_cache@ == before.retrieval_cache@,
        served is None ==> after.retrieval_cache@ == before.retrieval_cache@,
        after.retrieval_cache@.budget == before.retrieval_cache@.budget,
        after.retrieval_cache@.slots.len() == before.retrieval_cache@.slots.len(),
{
    let cache = before.retrieval_cache@;
    if exists|d: int| decides(found, query, d) {
        let d = choose|d: int| decides(found, query, d);
        assert(decides(found, query, d));
        assert(query_guard::agree(query, found[d].query));
        let asked = rewritten(key, found[d]);
        retrieval_cache::lookups_keep_every_slot(cache, asked, 0, 0);
        if forall|j: int| 0 <= j < found.len() ==> !query_guard::agree(query, (#[trigger] found[j]).query) {
            assert(!query_guard::agree(query, found[d].query));
        }
    }
}

} // verus!
