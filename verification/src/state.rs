//! The registry's state: contexts, groups, reservations, quotas, caches and
//! counters, as plain values.
use crate::groups;
use crate::groups::GroupRecord;
use crate::names::{NameMap, NameSet};
use crate::retrieval_cache::{ContextRevision, KeyView, RetrievalCache, RetrievalCacheOp};
use crate::semantic_cache::SemanticCache;
use crate::text::joined;
use vstd::prelude::*;

verus! {

/// What went wrong with an outside operation: whether the thing was simply
/// not there, and what the system said.
pub struct IoFault {
    pub not_found: bool,
    pub message: String,
}

impl IoFault {
    pub fn copy(&self) -> (res: IoFault)
        ensures
            res == *self,
    {
        IoFault { not_found: self.not_found, message: self.message.clone() }
    }
}

/// A copy of an optional string.
pub fn copy_text(text: &Option<String>) -> (res: Option<String>)
    ensures
        res == *text,
{
    match text {
        Some(t) => Some(t.clone()),
        None => None,
    }
}

/// A context's description and tuning. A floor is held as its rank: a
/// number that grows with the floor's value, equal for equal floors.
pub struct ContextMeta {
    pub description: String,
    pub pinned: bool,
    pub dice_floor: Option<u64>,
    pub semantic_floor: Option<u64>,
}

impl ContextMeta {
    pub fn copy(&self) -> (res: ContextMeta)
        ensures
            res == *self,
    {
        ContextMeta {
            description: self.description.clone(),
            pinned: self.pinned,
            dice_floor: self.dice_floor,
            semantic_floor: self.semantic_floor,
        }
    }

    /// No description, not pinned, no floors.
    pub open spec fn is_default(self) -> bool {
        self.description@.len() == 0 && !self.pinned && self.dice_floor is None && self.semantic_floor is None
    }
}

impl Default for ContextMeta {
    fn default() -> (res: ContextMeta)
        ensures
            res.is_default(),
    {
        ContextMeta { description: String::new(), pinned: false, dice_floor: None, semantic_floor: None }
    }
}

/// What a graph counts of itself.
#[derive(Clone, Copy, PartialEq, Eq, Structural, Debug)]
pub struct ContextStats {
    pub concepts: u64,
    pub associations: u64,
    pub labels: u64,
    pub sources: u64,
    pub dead_edges: u64,
    pub dead_attributions: u64,
    pub arena_slack: u64,
    pub unsourced_edges: u64,
    /// The bits of the weight of the unsourced edges.
    pub unsourced_weight: u64,
}

/// No graph at all.
pub open spec fn zero_stats() -> ContextStats {
    ContextStats {
        concepts: 0,
        associations: 0,
        labels: 0,
        sources: 0,
        dead_edges: 0,
        dead_attributions: 0,
        arena_slack: 0,
        unsourced_edges: 0,
        unsourced_weight: 0,
    }
}

impl Default for ContextStats {
    fn default() -> (res: ContextStats)
        ensures
            res == zero_stats(),
    {
        ContextStats {
            concepts: 0,
            associations: 0,
            labels: 0,
            sources: 0,
            dead_edges: 0,
            dead_attributions: 0,
            arena_slack: 0,
            unsourced_edges: 0,
            unsourced_weight: 0,
        }
    }
}

/// A context's usage counters.
#[derive(Clone, Copy, PartialEq, Eq, Structural, Debug)]
pub struct ContextUsage {
    pub reads: u64,
    pub empty_reads: u64,
    pub writes: u64,
    pub last_read_epoch: u64,
    pub last_write_epoch: u64,
}

pub open spec fn zero_usage() -> ContextUsage {
    ContextUsage { reads: 0, empty_reads: 0, writes: 0, last_read_epoch: 0, last_write_epoch: 0 }
}

impl Default for ContextUsage {
    fn default() -> (res: ContextUsage)
        ensures
            res == zero_usage(),
    {
        ContextUsage { reads: 0, empty_reads: 0, writes: 0, last_read_epoch: 0, last_write_epoch: 0 }
    }
}

pub open spec fn zero_revision() -> ContextRevision {
    ContextRevision { graph: 0, passages: 0, config: 0 }
}

/// A context's bytes on disk, without its logs.
#[derive(Clone, Copy, PartialEq, Eq, Structural, Debug)]
pub struct ContextDiskUsage {
    pub image_bytes: u64,
    pub passages_bytes: u64,
    pub sidecar_bytes: u64,
}

/// A context's declared ceilings.
#[derive(Clone, Copy, PartialEq, Eq, Structural, Debug)]
pub struct ContextQuota {
    pub storage_bytes: Option<u64>,
    pub cache_bytes: Option<u64>,
}

/// An installed schema: its document, and the mode it is enforced in.
pub struct InstalledSchema {
    pub document: String,
    pub mode: String,
}

impl InstalledSchema {
    pub fn copy(&self) -> (res: InstalledSchema)
        ensures
            res == *self,
    {
        InstalledSchema { document: self.document.clone(), mode: self.mode.clone() }
    }
}

/// A copy of an optional schema.
pub fn copy_schema(schema: &Option<InstalledSchema>) -> (res: Option<InstalledSchema>)
    ensures
        res == *schema,
{
    match schema {
        Some(s) => Some(s.copy()),
        None => None,
    }
}

/// What a context's change feed tells a client that keeps a copy.
pub enum ChangeKind {
    /// A source was stored; the client pulls it again.
    SourceStored { source: String },
    /// The schema was replaced, and is enforced in this mode.
    SchemaUpdated { mode: String },
}

/// What the registry knows of a loaded graph.
#[derive(Clone, Copy, PartialEq, Eq, Structural, Debug)]
pub struct GraphFacts {
    /// Its resident bytes.
    pub footprint: u64,
    pub stats: ContextStats,
    /// The log sequence number that its image covers.
    pub applied_seq: u64,
    /// The fuzzy-match floor it runs with.
    pub dice_floor: Option<u64>,
}

/// Whether a context's graph is in memory.
#[derive(Clone, Copy, PartialEq, Eq, Structural, Debug)]
pub enum Slot {
    Cold,
    Hot(GraphFacts),
}

/// What the registry knows of a resident passage store.
#[derive(Clone, Copy, PartialEq, Eq, Structural, Debug)]
pub struct StoreFacts {
    pub footprint: u64,
    pub pending_log_bytes: u64,
}

/// A load that failed: what was said, and when.
pub struct LoadFailure {
    pub message: String,
    /// In seconds since the epoch.
    pub at: u64,
}

/// A remembered failure that is younger than `retry` seconds.
pub open spec fn still_fresh(failure: Option<LoadFailure>, now: u64, retry: u64) -> bool {
    failure matches Some(f) && if now > f.at {
        now - f.at < retry
    } else {
        0 < retry
    }
}

/// What is answered from memory in place of a load: that the context is
/// quarantined, and why.
pub open spec fn quarantine_text(failure: LoadFailure) -> Seq<char> {
    "quarantined after a failed load: "@ + failure.message@
}

/// The answer from memory, where a failure is younger than `retry` seconds.
pub fn quarantine_notice(failure: &Option<LoadFailure>, now: u64, retry: u64) -> (res: Option<String>)
    ensures
        res is Some == still_fresh(*failure, now, retry),
        res matches Some(text) ==> text@ == quarantine_text(failure->0),
{
    match failure {
        Some(f) => if now.saturating_sub(f.at) < retry {
            Some(joined("quarantined after a failed load: ", f.message.as_str()))
        } else {
            None
        },
        None => None,
    }
}

/// One registered context.
pub struct Entry {
    /// Tells this registration from every other one, also of its name.
    pub serial: u64,
    pub meta: ContextMeta,
    pub stats: ContextStats,
    pub slot: Slot,
    /// The next log sequence number, at least one.
    pub wal_seq: u64,
    pub wal_bytes: u64,
    pub passages_wal_bytes: u64,
    pub graph_revision: u64,
    pub config_revision: u64,
    pub passage_revision: u64,
    /// Moves whenever the loaded graph is dropped or replaced.
    pub image_generation: u64,
    /// What this entry adds to the resident estimate.
    pub counted_bytes: u64,
    pub cache_identity: u64,
    /// The last load of the graph, where it failed.
    pub load_failure: Option<LoadFailure>,
    /// The last load of the passages, where it failed.
    pub passages_load_failure: Option<LoadFailure>,
    pub schema_digest: Option<String>,
    /// The installed schema, once it was read and checked.
    pub schema: Option<InstalledSchema>,
    pub usage: ContextUsage,
    pub usage_dirty: bool,
    pub dirty: bool,
    pub flushing: bool,
    /// An eviction is saving the graph; no flush may publish over it.
    pub saving: bool,
    pub last_touch: u64,
    pub disk: ContextDiskUsage,
    pub passages: Option<StoreFacts>,
    /// Passages that were written since the vectors were last brought up to
    /// date.
    pub passages_embed_dirty: bool,
    pub bm25: Option<u64>,
    pub bm25_dirty: bool,
    pub passage_vectors: Option<u64>,
    pub vectors: Option<u64>,
}

/// What a context's sidecar file holds.
pub struct MetaFile {
    pub meta: ContextMeta,
    pub stats: ContextStats,
    pub usage: ContextUsage,
    pub revision: ContextRevision,
    pub schema_digest: Option<String>,
}

impl MetaFile {
    /// The sidecar of a context that has none yet.
    pub open spec fn is_default(self) -> bool {
        self.meta.is_default() && self.stats == zero_stats() && self.usage == zero_usage() && self.revision
            == zero_revision() && self.schema_digest is None
    }
}

impl MetaFile {
    pub fn copy(&self) -> (res: MetaFile)
        ensures
            res == *self,
    {
        MetaFile {
            meta: self.meta.copy(),
            stats: self.stats,
            usage: self.usage,
            revision: self.revision,
            schema_digest: copy_text(&self.schema_digest),
        }
    }
}

impl Default for MetaFile {
    fn default() -> (res: MetaFile)
        ensures
            res.is_default(),
    {
        MetaFile {
            meta: ContextMeta::default(),
            stats: ContextStats::default(),
            usage: ContextUsage::default(),
            revision: ContextRevision { graph: 0, passages: 0, config: 0 },
            schema_digest: None,
        }
    }
}

impl Entry {
    pub open spec fn wf(&self) -> bool {
        self.wal_seq >= 1
    }

    pub open spec fn spec_revision(self) -> ContextRevision {
        ContextRevision { graph: self.graph_revision, passages: self.passage_revision, config: self.config_revision }
    }

    /// The entry's three revision counters.
    pub fn revision_snapshot(&self) -> (res: ContextRevision)
        ensures
            res == self.spec_revision(),
    {
        ContextRevision { graph: self.graph_revision, passages: self.passage_revision, config: self.config_revision }
    }

    /// What the entry's sidecar holds when it is written with `stats`.
    pub open spec fn sidecar_is(self, stats: ContextStats, file: MetaFile) -> bool {
        file == (MetaFile {
            meta: self.meta,
            stats,
            usage: self.usage,
            revision: self.spec_revision(),
            schema_digest: self.schema_digest,
        })
    }

    /// The sidecar to write for this entry, with `stats`.
    pub fn sidecar(&self, stats: ContextStats) -> (res: MetaFile)
        ensures
            self.sidecar_is(stats, res),
    {
        MetaFile {
            meta: self.meta.copy(),
            stats,
            usage: self.usage,
            revision: self.revision_snapshot(),
            schema_digest: copy_text(&self.schema_digest),
        }
    }

    /// The resident bytes of the graph.
    pub open spec fn graph_bytes(self) -> u64 {
        match self.slot {
            Slot::Hot(facts) => facts.footprint,
            Slot::Cold => 0,
        }
    }

    /// The resident bytes of everything else.
    pub open spec fn cache_bytes(self) -> int {
        self.vector_bytes() + self.passage_bytes() + self.bm25_bytes() + self.passage_vector_bytes()
    }

    pub open spec fn vector_bytes(self) -> int {
        match self.vectors {
            Some(n) => n as int,
            None => 0,
        }
    }

    pub open spec fn passage_bytes(self) -> int {
        match self.passages {
            Some(p) => p.footprint as int,
            None => 0,
        }
    }

    pub open spec fn bm25_bytes(self) -> int {
        match self.bm25 {
            Some(n) => n as int,
            None => 0,
        }
    }

    pub open spec fn passage_vector_bytes(self) -> int {
        match self.passage_vectors {
            Some(n) => n as int,
            None => 0,
        }
    }

    /// The resident bytes of the graph.
    pub fn graph_footprint(&self) -> (res: u64)
        ensures
            res == self.graph_bytes(),
    {
        match self.slot {
            Slot::Hot(facts) => facts.footprint,
            Slot::Cold => 0,
        }
    }

    /// The resident bytes of everything but the graph, at most
    /// [`u64::MAX`].
    pub fn cache_footprint(&self) -> (res: u64)
        ensures
            res == capped(self.cache_bytes()),
    {
        let vectors: u64 = match self.vectors {
            Some(n) => n,
            None => 0,
        };
        let passages: u64 = match self.passages {
            Some(p) => p.footprint,
            None => 0,
        };
        let bm25: u64 = match self.bm25 {
            Some(n) => n,
            None => 0,
        };
        let passage_vectors: u64 = match self.passage_vectors {
            Some(n) => n,
            None => 0,
        };
        vectors.saturating_add(passages).saturating_add(bm25).saturating_add(passage_vectors)
    }

    /// The bytes of the passage log: a resident store knows its own, a cold
    /// one was measured on the way down.
    pub open spec fn passage_log_bytes(self) -> u64 {
        match self.passages {
            Some(p) => p.pending_log_bytes,
            None => self.passages_wal_bytes,
        }
    }

    pub fn passage_log(&self) -> (res: u64)
        ensures
            res == self.passage_log_bytes(),
    {
        match self.passages {
            Some(p) => p.pending_log_bytes,
            None => self.passages_wal_bytes,
        }
    }

    /// The context's whole family on disk, logs included.
    pub open spec fn disk_bytes(self) -> int {
        self.disk.image_bytes + self.disk.passages_bytes + self.disk.sidecar_bytes + self.wal_bytes
            + self.passage_log_bytes()
    }

    /// The context's whole family on disk, at most [`u64::MAX`].
    pub fn disk_total(&self) -> (res: u64)
        ensures
            res == capped(self.disk_bytes()),
    {
        self.disk.image_bytes.saturating_add(self.disk.passages_bytes).saturating_add(self.disk.sidecar_bytes).saturating_add(
            self.wal_bytes,
        ).saturating_add(self.passage_log())
    }

    /// An entry as it stands right after a cold registration from a sidecar.
    pub open spec fn is_cold_from(self, serial: u64, identity: u64, file: MetaFile, wal_bytes: u64, passages_wal_bytes: u64) -> bool {
        self == (Entry {
            serial,
            meta: file.meta,
            stats: file.stats,
            slot: Slot::Cold,
            wal_seq: 1,
            wal_bytes,
            passages_wal_bytes,
            graph_revision: file.revision.graph,
            config_revision: file.revision.config,
            passage_revision: file.revision.passages,
            image_generation: 0,
            counted_bytes: 0,
            cache_identity: identity,
            load_failure: None,
            passages_load_failure: None,
            schema_digest: file.schema_digest,
            schema: None,
            usage: file.usage,
            usage_dirty: false,
            dirty: false,
            flushing: false,
            saving: false,
            last_touch: 0,
            disk: ContextDiskUsage { image_bytes: 0, passages_bytes: 0, sidecar_bytes: 0 },
            passages: None,
            passages_embed_dirty: false,
            bm25: None,
            bm25_dirty: false,
            passage_vectors: None,
            vectors: None,
        })
    }

    /// A cold entry seeded from its sidecar.
    pub fn cold_from_meta(serial: u64, identity: u64, file: MetaFile, wal_bytes: u64, passages_wal_bytes: u64) -> (res: Entry)
        ensures
            res.is_cold_from(serial, identity, file, wal_bytes, passages_wal_bytes),
            res.wf(),
    {
        Entry {
            serial,
            meta: file.meta,
            stats: file.stats,
            slot: Slot::Cold,
            wal_seq: 1,
            wal_bytes,
            passages_wal_bytes,
            graph_revision: file.revision.graph,
            config_revision: file.revision.config,
            passage_revision: file.revision.passages,
            image_generation: 0,
            counted_bytes: 0,
            cache_identity: identity,
            load_failure: None,
            passages_load_failure: None,
            schema_digest: file.schema_digest,
            schema: None,
            usage: file.usage,
            usage_dirty: false,
            dirty: false,
            flushing: false,
            saving: false,
            last_touch: 0,
            disk: ContextDiskUsage { image_bytes: 0, passages_bytes: 0, sidecar_bytes: 0 },
            passages: None,
            passages_embed_dirty: false,
            bm25: None,
            bm25_dirty: false,
            passage_vectors: None,
            vectors: None,
        }
    }
}

/// A sum as a counter holds it: at most [`u64::MAX`].
pub open spec fn capped(n: int) -> u64 {
    if n <= u64::MAX {
        n as u64
    } else {
        u64::MAX
    }
}

/// Names that an operation under way has reserved.
pub struct PendingNames {
    pub creates: NameSet,
    pub deletes: NameSet,
    pub renames: NameSet,
}

/// Which per-context gauge rows a scrape carries.
#[derive(Clone, Copy, PartialEq, Eq, Structural, Debug)]
pub enum PerContextMetrics {
    Off,
    All,
    Top(usize),
}

/// A read-only replica's lineage.
pub struct ReplicaInfo {
    pub writer: String,
}

/// What the registry was started with.
pub struct Options {
    /// The resident budget in bytes.
    pub cache_bytes: u64,
    pub wal_enabled: bool,
    /// The log cap in bytes; zero for none.
    pub wal_max_bytes: u64,
    pub per_context_metrics: PerContextMetrics,
    /// For how many seconds a failed load is answered from memory before
    /// another one is tried.
    pub load_retry: u64,
    /// How many names each of a group's two sets may hold.
    pub max_group_members: usize,
    /// Whether passages are embedded, where there is a provider.
    pub embed_passages: bool,
    /// The embedding provider's model; `None` where there is no provider.
    pub embedding_model: Option<String>,
    /// The deployment's floor for the vector lane, as a rank.
    pub semantic_floor: u64,
}

/// A count per retrieval operation.
#[derive(Clone, Copy, PartialEq, Eq, Structural, Debug)]
pub struct OpCounts {
    pub recall: u64,
    pub query: u64,
    pub search_passages: u64,
    pub search_communities: u64,
}

pub open spec fn zero_counts() -> OpCounts {
    OpCounts { recall: 0, query: 0, search_passages: 0, search_communities: 0 }
}

impl OpCounts {
    pub fn zero() -> (res: OpCounts)
        ensures
            res == zero_counts(),
    {
        OpCounts { recall: 0, query: 0, search_passages: 0, search_communities: 0 }
    }

    /// The counts with one more of an operation.
    pub open spec fn plus_one(self, op: RetrievalCacheOp) -> OpCounts {
        match op {
            RetrievalCacheOp::Recall => OpCounts { recall: self.recall.wrapping_add(1), ..self },
            RetrievalCacheOp::Query => OpCounts { query: self.query.wrapping_add(1), ..self },
            RetrievalCacheOp::SearchPassages => OpCounts {
                search_passages: self.search_passages.wrapping_add(1),
                ..self
            },
            RetrievalCacheOp::SearchCommunities => OpCounts {
                search_communities: self.search_communities.wrapping_add(1),
                ..self
            },
        }
    }

    /// Counts one more of an operation.
    pub fn count(&mut self, op: RetrievalCacheOp)
        ensures
            *final(self) == old(self).plus_one(op),
    {
        match op {
            RetrievalCacheOp::Recall => {
                self.recall = self.recall.wrapping_add(1);
            },
            RetrievalCacheOp::Query => {
                self.query = self.query.wrapping_add(1);
            },
            RetrievalCacheOp::SearchPassages => {
                self.search_passages = self.search_passages.wrapping_add(1);
            },
            RetrievalCacheOp::SearchCommunities => {
                self.search_communities = self.search_communities.wrapping_add(1);
            },
        }
    }
}

/// What the registry counts of itself.
pub struct Metrics {
    pub maintenance: bool,
    /// Uses that found the graph loaded.
    pub cache_hits: u64,
    pub loads_ok: u64,
    pub loads_failed: u64,
    pub flushes_ok: u64,
    pub flushes_failed: u64,
    /// The contexts whose last flush failed.
    pub failing_flushes: NameSet,
    /// When a flush last went through, in seconds since the epoch.
    pub last_flush_success: u64,
    pub evictions_ok: u64,
    pub evictions_failed: u64,
    pub wal_appends_ok: u64,
    pub wal_appends_failed: u64,
    pub storage_quota_refusals: u64,
    pub searches: OpCounts,
    pub empty_searches: OpCounts,
    pub retrieval_hits: OpCounts,
    pub retrieval_misses: OpCounts,
    pub semantic_hits: u64,
    pub semantic_stale: u64,
    pub semantic_guarded: u64,
    pub semantic_misses: u64,
}

impl Metrics {
    pub open spec fn wf(&self) -> bool {
        self.failing_flushes.wf()
    }

    /// Nothing counted yet.
    pub open spec fn is_zero(self) -> bool {
        &&& self == (Metrics {
            maintenance: false,
            cache_hits: 0,
            loads_ok: 0,
            loads_failed: 0,
            flushes_ok: 0,
            flushes_failed: 0,
            failing_flushes: self.failing_flushes,
            last_flush_success: 0,
            evictions_ok: 0,
            evictions_failed: 0,
            wal_appends_ok: 0,
            wal_appends_failed: 0,
            storage_quota_refusals: 0,
            searches: zero_counts(),
            empty_searches: zero_counts(),
            retrieval_hits: zero_counts(),
            retrieval_misses: zero_counts(),
            semantic_hits: 0,
            semantic_stale: 0,
            semantic_guarded: 0,
            semantic_misses: 0,
        })
        &&& self.failing_flushes@ == Set::<Seq<char>>::empty()
    }

    pub fn new() -> (res: Metrics)
        ensures
            res.is_zero(),
            res.wf(),
    {
        Metrics {
            maintenance: false,
            cache_hits: 0,
            loads_ok: 0,
            loads_failed: 0,
            flushes_ok: 0,
            flushes_failed: 0,
            failing_flushes: NameSet::new(),
            last_flush_success: 0,
            evictions_ok: 0,
            evictions_failed: 0,
            wal_appends_ok: 0,
            wal_appends_failed: 0,
            storage_quota_refusals: 0,
            searches: OpCounts::zero(),
            empty_searches: OpCounts::zero(),
            retrieval_hits: OpCounts::zero(),
            retrieval_misses: OpCounts::zero(),
            semantic_hits: 0,
            semantic_stale: 0,
            semantic_guarded: 0,
            semantic_misses: 0,
        }
    }

    /// The counters once a flush of `name` went through, at the time given,
    /// or failed.
    pub open spec fn flush_recorded(self, name: Seq<char>, through: Option<u64>, after: Metrics) -> bool {
        match through {
            Some(now) => {
                &&& after == (Metrics {
                    flushes_ok: self.flushes_ok.wrapping_add(1),
                    last_flush_success: now,
                    failing_flushes: after.failing_flushes,
                    ..self
                })
                &&& after.failing_flushes@ == self.failing_flushes@.remove(name)
            },
            None => {
                &&& after == (Metrics {
                    flushes_failed: self.flushes_failed.wrapping_add(1),
                    failing_flushes: after.failing_flushes,
                    ..self
                })
                &&& after.failing_flushes@ == self.failing_flushes@.insert(name)
            },
        }
    }

    /// Counts a flush of `name` that went through, at the time given, or
    /// failed.
    pub fn record_flush(&mut self, name: &str, through: Option<u64>)
        requires
            old(self).wf(),
        ensures
            final(self).wf(),
            old(self).flush_recorded(name@, through, *final(self)),
    {
        match through {
            Some(now) => {
                self.flushes_ok = self.flushes_ok.wrapping_add(1);
                self.last_flush_success = now;
                self.failing_flushes.remove(name);
            },
            None => {
                self.flushes_failed = self.flushes_failed.wrapping_add(1);
                self.failing_flushes.insert(name.to_owned());
            },
        }
    }

    /// Every context's last flush went through.
    pub open spec fn healthy(self) -> bool {
        self.failing_flushes@ == Set::<Seq<char>>::empty()
    }

    /// Whether every context's last flush went through.
    pub fn flush_is_healthy(&self) -> (res: bool)
        requires
            self.wf(),
        ensures
            res == self.healthy(),
    {
        self.failing_flushes.is_empty()
    }

    /// When a flush last went through, in seconds since the epoch; zero
    /// before the first.
    pub fn last_flush_success_epoch(&self) -> (res: u64)
        ensures
            res == self.last_flush_success,
    {
        self.last_flush_success
    }
}

/// A failed flush is unhealthy until the same context's next flush goes
/// through; that of another context does not make up for it.
pub proof fn health_follows_each_context(was: Metrics, name: Seq<char>, failed: Metrics, other: Seq<char>, at: u64, after: Metrics)
    requires
        was.flush_recorded(name, None, failed),
        failed.flush_recorded(other, Some(at), after),
    ensures
        !failed.healthy(),
        other != name ==> !after.healthy(),
        other == name ==> after.healthy() == was.failing_flushes@.subset_of(set![name]),
{
    assert(failed.failing_flushes@.contains(name));
    if other == name {
        assert(after.failing_flushes@ =~= was.failing_flushes@.remove(name));
        if was.failing_flushes@.subset_of(set![name]) {
            assert(after.failing_flushes@ =~= Set::<Seq<char>>::empty());
        } else {
            let n = choose|n: Seq<char>| was.failing_flushes@.contains(n) && !set![name].contains(n);
            assert(after.failing_flushes@.contains(n));
        }
    } else {
        assert(after.failing_flushes@.contains(name));
    }
}

/// Every cache identity in a key is below `next`.
pub open spec fn given_out(key: KeyView, next: u64) -> bool {
    forall|i: int| 0 <= i < key.targets.len() ==> (#[trigger] key.targets[i]).identity < next
}

/// The registry.
pub struct AppState {
    pub registry: NameMap<Entry>,
    pub pending: PendingNames,
    pub groups: NameMap<GroupRecord>,
    pub context_quotas: NameMap<ContextQuota>,
    pub options: Options,
    pub replica: Option<ReplicaInfo>,
    pub metrics: Metrics,
    pub retrieval_cache: RetrievalCache,
    pub semantic_cache: SemanticCache,
    /// Counts the operations that the budget gate saw.
    pub budget_ops: u64,
    /// What the loaded, unpinned graphs are believed to weigh.
    pub resident_estimate: i64,
    /// The recency clock.
    pub clock: u64,
    /// The next registration's serial.
    pub next_serial: u64,
    /// The next cache identity.
    pub next_identity: u64,
}

impl AppState {
    /// Every collection is well-formed.
    pub open spec fn wf(&self) -> bool {
        &&& self.registry.wf()
        &&& forall|n: Seq<char>| self.registry@.contains_key(n) ==> (#[trigger] self.registry@[n]).wf()
        &&& self.pending.creates.wf()
        &&& self.pending.deletes.wf()
        &&& self.pending.renames.wf()
        &&& groups::groups_wf(self.groups)
        &&& self.context_quotas.wf()
        &&& self.metrics.wf()
        &&& self.retrieval_cache.wf()
        &&& self.semantic_cache.wf()
    }

    /// An empty registry.
    pub fn new(
        options: Options,
        context_quotas: NameMap<ContextQuota>,
        replica: Option<ReplicaInfo>,
        retrieval_cache_bytes: usize,
        semantic_threshold: Option<u64>,
    ) -> (res: AppState)
        requires
            context_quotas.wf(),
        ensures
            res.wf(),
            res.registry@ == Map::<Seq<char>, Entry>::empty(),
            res.groups@ == Map::<Seq<char>, GroupRecord>::empty(),
            res.pending.creates@ == Set::<Seq<char>>::empty(),
            res.pending.deletes@ == Set::<Seq<char>>::empty(),
            res.pending.renames@ == Set::<Seq<char>>::empty(),
            res.context_quotas == context_quotas,
            res.options == options,
            res.replica == replica,
            res.metrics.is_zero(),
            res.retrieval_cache@ == (crate::retrieval_cache::CacheView {
                slots: Seq::empty(),
                budget: retrieval_cache_bytes as nat,
            }),
            res.semantic_cache@ == (crate::semantic_cache::IndexView {
                threshold: semantic_threshold,
                clusters: Seq::empty(),
                tick: 0,
            }),
            res.budget_ops == 0 && res.resident_estimate == 0 && res.clock == 0,
            res.next_serial == 0 && res.next_identity == 0,
            res.nonces_fresh(),
    {
        AppState {
            registry: NameMap::new(),
            pending: PendingNames { creates: NameSet::new(), deletes: NameSet::new(), renames: NameSet::new() },
            groups: NameMap::new(),
            context_quotas,
            options,
            replica,
            metrics: Metrics::new(),
            retrieval_cache: RetrievalCache::new(retrieval_cache_bytes),
            semantic_cache: SemanticCache::new(semantic_threshold),
            budget_ops: 0,
            resident_estimate: 0,
            clock: 0,
            next_serial: 0,
            next_identity: 0,
        }
    }

    /// Nothing bears a serial or a cache identity that is still to be given
    /// out, neither a context nor a key of the retrieval cache.
    pub open spec fn nonces_fresh(&self) -> bool {
        &&& forall|n: Seq<char>| #[trigger]
            self.registry@.contains_key(n) ==> self.registry@[n].serial < self.next_serial
                && self.registry@[n].cache_identity < self.next_identity
        &&& forall|i: int|
            0 <= i < self.retrieval_cache@.slots.len() ==> given_out(
                (#[trigger] self.retrieval_cache@.slots[i]).key,
                self.next_identity,
            )
    }

    /// The context under `name` bears this cache identity.
    pub open spec fn bears(&self, name: Seq<char>, identity: u64) -> bool {
        self.registry@.contains_key(name) && self.registry@[name].cache_identity == identity
    }

    /// What every operation keeps while there are serials and identities
    /// left: both only go up, none that is still to be given out comes into
    /// use, and one that went out of use never comes back.
    pub open spec fn nonces_kept(self, after: AppState) -> bool {
        self.next_serial < u64::MAX && self.next_identity < u64::MAX ==> {
            &&& self.next_serial <= after.next_serial
            &&& self.next_identity <= after.next_identity
            &&& self.nonces_fresh() ==> after.nonces_fresh()
            &&& forall|n: Seq<char>, serial: u64|
                serial < self.next_serial && #[trigger] after.live(n, serial) ==> self.live(n, serial)
            &&& forall|n: Seq<char>, identity: u64|
                identity < self.next_identity && #[trigger] after.bears(n, identity) ==> self.bears(n, identity)
        }
    }

    /// The registration `serial` is still the one under `name`.
    pub open spec fn live(&self, name: Seq<char>, serial: u64) -> bool {
        self.registry@.contains_key(name) && self.registry@[name].serial == serial
    }

    /// Whether the registration `serial` is still the one under `name`. A
    /// handle whose registration was deleted, renamed away or replaced finds
    /// it is not, and backs off.
    pub fn is_live(&self, name: &str, serial: u64) -> (res: bool)
        requires
            self.wf(),
        ensures
            res == self.live(name@, serial),
    {
        match self.registry.get(name) {
            Some(entry) => entry.serial == serial,
            None => false,
        }
    }
}

/// States that follow one another by operations, with serials and identities
/// left at each.
pub open spec fn is_history(states: Seq<AppState>) -> bool {
    forall|i: int|
        0 <= i < states.len() - 1 ==> (#[trigger] states[i]).next_serial < u64::MAX && states[i].next_identity < u64::MAX
            && states[i].nonces_kept(states[i + 1])
}

/// Over any history the serials and identities only go up, what is still to
/// be given out stays unused, and what went out of use stays out of use.
pub proof fn history_keeps_nonces(states: Seq<AppState>)
    requires
        states.len() > 0,
        is_history(states),
    ensures
        states[0].next_serial <= states.last().next_serial,
        states[0].next_identity <= states.last().next_identity,
        states[0].nonces_fresh() ==> states.last().nonces_fresh(),
        forall|n: Seq<char>, serial: u64|
            serial < states[0].next_serial && #[trigger] states.last().live(n, serial) ==> states[0].live(n, serial),
        forall|n: Seq<char>, identity: u64|
            identity < states[0].next_identity && #[trigger] states.last().bears(n, identity) ==> states[0].bears(
                n,
                identity,
            ),
    decreases states.len(),
{
    if states.len() > 1 {
        let rest = states.drop_last();
        assert forall|i: int| 0 <= i < rest.len() - 1 implies (#[trigger] rest[i]).next_serial < u64::MAX
            && rest[i].next_identity < u64::MAX && rest[i].nonces_kept(rest[i + 1]) by {
            assert(rest[i] == states[i] && rest[i + 1] == states[i + 1]);
        }
        history_keeps_nonces(rest);
        let before = states[states.len() - 2];
        assert(rest.last() == before);
        assert(before.nonces_kept(states[states.len() - 2 + 1]));
        assert forall|n: Seq<char>, serial: u64|
            serial < states[0].next_serial && #[trigger] states.last().live(n, serial) implies states[0].live(n, serial) by {
            assert(before.live(n, serial));
        }
        assert forall|n: Seq<char>, identity: u64|
            identity < states[0].next_identity && #[trigger] states.last().bears(n, identity) implies states[0].bears(
            n,
            identity,
        ) by {
            assert(before.bears(n, identity));
        }
    }
}

/// A counter holds a sum as it is, up to the largest number that it can.
pub proof fn counters_hold_their_sums(n: int)
    requires
        n >= 0,
    ensures
        n <= u64::MAX ==> capped(n) == n,
        n > u64::MAX ==> capped(n) == u64::MAX,
{
}

/// A context's bytes on disk are those of its image, its passages, its
/// sidecars, its log and its passage log: five counts, each in full. A
/// resident passage store knows the last of them itself.
pub proof fn every_file_counts_on_disk(e: Entry, more: u64)
    ensures
        e.disk_bytes() == e.disk.image_bytes + e.disk.passages_bytes + e.disk.sidecar_bytes + e.wal_bytes + (match e.passages {
            Some(p) => p.pending_log_bytes,
            None => e.passages_wal_bytes,
        }),
        e.disk_bytes() >= e.disk.image_bytes,
        e.disk_bytes() >= e.disk.passages_bytes,
        e.disk_bytes() >= e.disk.sidecar_bytes,
        e.disk_bytes() >= e.wal_bytes,
        e.passages is Some ==> e.disk_bytes() >= (e.passages->0).pending_log_bytes,
        e.passages is None ==> e.disk_bytes() >= e.passages_wal_bytes,
        (Entry { disk: ContextDiskUsage { passages_bytes: more, ..e.disk }, ..e }).disk_bytes() - more == e.disk_bytes()
            - e.disk.passages_bytes,
        (Entry { disk: ContextDiskUsage { image_bytes: more, ..e.disk }, ..e }).disk_bytes() - more == e.disk_bytes()
            - e.disk.image_bytes,
        (Entry { disk: ContextDiskUsage { sidecar_bytes: more, ..e.disk }, ..e }).disk_bytes() - more == e.disk_bytes()
            - e.disk.sidecar_bytes,
        (Entry { wal_bytes: more, ..e }).disk_bytes() - more == e.disk_bytes() - e.wal_bytes,
{
}

/// A context's bytes in memory besides its graph are those of its vectors,
/// its passages, its keyword index and its passage vectors: four counts, each
/// in full.
pub proof fn every_resident_counts_in_memory(e: Entry)
    ensures
        e.cache_bytes() == (match e.vectors {
            Some(n) => n as int,
            None => 0,
        }) + (match e.passages {
            Some(p) => p.footprint as int,
            None => 0,
        }) + (match e.bm25 {
            Some(n) => n as int,
            None => 0,
        }) + (match e.passage_vectors {
            Some(n) => n as int,
            None => 0,
        }),
        e.slot matches Slot::Hot(facts) ==> e.graph_bytes() == facts.footprint,
        e.slot is Cold ==> e.graph_bytes() == 0,
{
}

/// A failed load is fresh for `retry` seconds from when it happened, also
/// where the clock has gone back since, and then no more; where nothing
/// failed nothing is fresh. The answer meanwhile names the failure.
pub proof fn failures_stay_fresh_for_the_delay(failure: LoadFailure, now: u64, retry: u64)
    ensures
        !still_fresh(None, now, retry),
        failure.at <= now ==> (still_fresh(Some(failure), now, retry) <==> now - failure.at < retry),
        failure.at > now ==> (still_fresh(Some(failure), now, retry) <==> retry > 0),
        retry == 0 ==> !still_fresh(Some(failure), now, retry),
        quarantine_text(failure).len() == "quarantined after a failed load: "@.len() + failure.message@.len(),
        quarantine_text(failure).skip("quarantined after a failed load: "@.len() as int) == failure.message@,
        quarantine_text(failure).take("quarantined after a failed load: "@.len() as int) == "quarantined after a failed load: "@,
{
    let head = "quarantined after a failed load: "@;
    assert(quarantine_text(failure).skip(head.len() as int) =~= failure.message@);
    assert(quarantine_text(failure).take(head.len() as int) =~= head);
}

/// A sidecar holds the entry's own metadata, usage, digest and three
/// revisions, each in its own place, and the counts that it is written with.
pub proof fn sidecars_hold_the_entry(e: Entry, stats: ContextStats, file: MetaFile)
    requires
        e.sidecar_is(stats, file),
    ensures
        file.meta == e.meta,
        file.stats == stats,
        file.usage == e.usage,
        file.schema_digest == e.schema_digest,
        file.revision.graph == e.graph_revision,
        file.revision.passages == e.passage_revision,
        file.revision.config == e.config_revision,
{
}

/// A context that is registered cold from the sidecar that it was saved with
/// comes back with what was saved: its metadata, counts, usage, digest and
/// revisions. It is clean and holds nothing in memory.
pub proof fn sidecars_restore_the_entry(
    saved: Entry,
    stats: ContextStats,
    file: MetaFile,
    e: Entry,
    serial: u64,
    identity: u64,
    wal_bytes: u64,
    passages_wal_bytes: u64,
)
    requires
        saved.sidecar_is(stats, file),
        e.is_cold_from(serial, identity, file, wal_bytes, passages_wal_bytes),
    ensures
        e.meta == saved.meta && e.stats == stats && e.usage == saved.usage && e.schema_digest == saved.schema_digest,
        e.graph_revision == saved.graph_revision && e.passage_revision == saved.passage_revision && e.config_revision
            == saved.config_revision,
        e.serial == serial && e.cache_identity == identity,
        e.wal_bytes == wal_bytes && e.passages_wal_bytes == passages_wal_bytes,
        e.slot is Cold && e.wal_seq == 1 && e.image_generation == 0,
        e.cache_bytes() == 0 && e.counted_bytes == 0 && e.graph_bytes() == 0,
        e.disk_bytes() == wal_bytes + passages_wal_bytes,
        !e.dirty && !e.flushing && !e.saving && !e.usage_dirty && !e.bm25_dirty && !e.passages_embed_dirty,
        e.load_failure is None && e.passages_load_failure is None && e.schema is None,
        e.last_touch == 0,
{
}

/// Counting an operation adds one to its own count and to no other.
pub proof fn operations_count_one(c: OpCounts, op: RetrievalCacheOp)
    ensures
        c.plus_one(op).recall == if op is Recall {
            c.recall.wrapping_add(1)
        } else {
            c.recall
        },
        c.plus_one(op).query == if op is Query {
            c.query.wrapping_add(1)
        } else {
            c.query
        },
        c.plus_one(op).search_passages == if op is SearchPassages {
            c.search_passages.wrapping_add(1)
        } else {
            c.search_passages
        },
        c.plus_one(op).search_communities == if op is SearchCommunities {
            c.search_communities.wrapping_add(1)
        } else {
            c.search_communities
        },
{
}

/// A flush adds one to the count of how it came out. One that went through is
/// the last success and takes its context out of the failing ones; one that
/// failed puts it among them. No other context and no other counter is
/// touched.
pub proof fn flushes_are_recorded(m: Metrics, name: Seq<char>, through: Option<u64>, after: Metrics, other: Seq<char>)
    requires
        m.flush_recorded(name, through, after),
    ensures
        through is Some ==> after.flushes_ok == m.flushes_ok.wrapping_add(1) && after.flushes_failed == m.flushes_failed,
        through is None ==> after.flushes_failed == m.flushes_failed.wrapping_add(1) && after.flushes_ok == m.flushes_ok,
        through matches Some(now) ==> after.last_flush_success == now,
        through is None ==> after.last_flush_success == m.last_flush_success,
        after.failing_flushes@.contains(name) <==> through is None,
        other != name ==> after.failing_flushes@.contains(other) == m.failing_flushes@.contains(other),
        (Metrics {
            flushes_ok: m.flushes_ok,
            flushes_failed: m.flushes_failed,
            last_flush_success: m.last_flush_success,
            failing_flushes: m.failing_flushes,
            ..after
        }) == m,
        after.healthy() <==> forall|n: Seq<char>| !after.failing_flushes@.contains(n),
{
    if forall|n: Seq<char>| !after.failing_flushes@.contains(n) {
        assert(after.failing_flushes@ =~= Set::<Seq<char>>::empty());
    }
}

/// Counters start with nothing counted, no flush failing, and the server
/// open.
pub proof fn counters_start_at_zero(m: Metrics, name: Seq<char>)
    requires
        m.is_zero(),
    ensures
        !m.maintenance,
        m.cache_hits == 0 && m.loads_ok == 0 && m.loads_failed == 0,
        m.flushes_ok == 0 && m.flushes_failed == 0 && m.last_flush_success == 0,
        m.evictions_ok == 0 && m.evictions_failed == 0,
        m.wal_appends_ok == 0 && m.wal_appends_failed == 0 && m.storage_quota_refusals == 0,
        m.semantic_hits == 0 && m.semantic_stale == 0 && m.semantic_guarded == 0 && m.semantic_misses == 0,
        m.searches.recall == 0 && m.searches.query == 0 && m.searches.search_passages == 0 && m.searches.search_communities == 0,
        m.empty_searches.recall == 0 && m.empty_searches.query == 0 && m.empty_searches.search_passages == 0
            && m.empty_searches.search_communities == 0,
        m.retrieval_hits.recall == 0 && m.retrieval_hits.query == 0 && m.retrieval_hits.search_passages == 0
            && m.retrieval_hits.search_communities == 0,
        m.retrieval_misses.recall == 0 && m.retrieval_misses.query == 0 && m.retrieval_misses.search_passages == 0
            && m.retrieval_misses.search_communities == 0,
        !m.failing_flushes@.contains(name),
        m.healthy(),
{
}

/// A registration is live exactly while its own serial stands under its name,
/// so under one name at most one is; and a context bears exactly the identity
/// that its entry says.
pub proof fn one_registration_lives_under_a_name(state: AppState, name: Seq<char>, a: u64, b: u64)
    ensures
        !state.registry@.contains_key(name) ==> !state.live(name, a) && !state.bears(name, a),
        state.live(name, a) && state.live(name, b) ==> a == b,
        state.bears(name, a) && state.bears(name, b) ==> a == b,
        state.registry@.contains_key(name) ==> state.live(name, state.registry@[name].serial) && state.bears(
            name,
            state.registry@[name].cache_identity,
        ),
{
}

/// A sidecar that is not there stands for no description, no pin, no floors,
/// no counts, no uses, no revisions and no digest.
pub proof fn default_sidecars_say_nothing(file: MetaFile)
    requires
        file.is_default(),
    ensures
        file.meta.description@.len() == 0 && !file.meta.pinned && file.meta.dice_floor is None && file.meta.semantic_floor
            is None,
        file.stats.concepts == 0 && file.stats.associations == 0 && file.stats.labels == 0 && file.stats.sources == 0,
        file.stats.dead_edges == 0 && file.stats.dead_attributions == 0 && file.stats.arena_slack == 0
            && file.stats.unsourced_edges == 0 && file.stats.unsourced_weight == 0,
        file.usage.reads == 0 && file.usage.empty_reads == 0 && file.usage.writes == 0 && file.usage.last_read_epoch == 0
            && file.usage.last_write_epoch == 0,
        file.revision.graph == 0 && file.revision.passages == 0 && file.revision.config == 0,
        file.schema_digest is None,
{
}

} // verus!
