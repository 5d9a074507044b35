//! What the registry counts and shows of itself.
use crate::engine::Handle;
use crate::names;
use crate::paths::{bm25_path, image_path, meta_path, passages_path, pvectors_path, sources_path, vectors_path};
use crate::picking;
use crate::ranking;
use crate::ranking::rank;
use crate::residency;
use crate::retrieval_cache;
use crate::retrieval_cache::RetrievalCacheOp;
use crate::semantic_cache;
use crate::state;
use crate::state::{
    AppState, ContextDiskUsage, ContextStats, ContextUsage, Entry, Metrics, MetaFile, PerContextMetrics, Slot,
};
use vstd::prelude::*;

verus! {

/// The right to run the one maintenance sweep. The server is closed to
/// ordinary traffic until it is handed back.
pub struct MaintenanceGuard {
    entered: bool,
}

/// One sidecar to write for its usage counters.
pub struct UsageWrite {
    pub name: String,
    pub serial: u64,
    pub sidecar: MetaFile,
}

/// One context's gauges.
pub struct ContextGaugeRow {
    pub name: String,
    pub pinned: bool,
    pub resident_bytes: u64,
    pub disk_image_bytes: u64,
    pub disk_wal_bytes: u64,
    pub disk_passages_bytes: u64,
    pub disk_passages_wal_bytes: u64,
    pub disk_sidecar_bytes: u64,
    pub quota_storage_bytes: Option<u64>,
    pub quota_cache_bytes: Option<u64>,
    pub concepts: u64,
    pub associations: u64,
    pub labels: u64,
    pub sources: u64,
}

pub struct RowView {
    pub name: Seq<char>,
    pub pinned: bool,
    pub resident_bytes: u64,
    pub disk_image_bytes: u64,
    pub disk_wal_bytes: u64,
    pub disk_passages_bytes: u64,
    pub disk_passages_wal_bytes: u64,
    pub disk_sidecar_bytes: u64,
    pub quota_storage_bytes: Option<u64>,
    pub quota_cache_bytes: Option<u64>,
    pub concepts: u64,
    pub associations: u64,
    pub labels: u64,
    pub sources: u64,
}

impl View for ContextGaugeRow {
    type V = RowView;

    open spec fn view(&self) -> RowView {
        RowView {
            name: self.name@,
            pinned: self.pinned,
            resident_bytes: self.resident_bytes,
            disk_image_bytes: self.disk_image_bytes,
            disk_wal_bytes: self.disk_wal_bytes,
            disk_passages_bytes: self.disk_passages_bytes,
            disk_passages_wal_bytes: self.disk_passages_wal_bytes,
            disk_sidecar_bytes: self.disk_sidecar_bytes,
            quota_storage_bytes: self.quota_storage_bytes,
            quota_cache_bytes: self.quota_cache_bytes,
            concepts: self.concepts,
            associations: self.associations,
            labels: self.labels,
            sources: self.sources,
        }
    }
}

impl ContextGaugeRow {
    /// The context's whole family on disk, logs included, at most
    /// [`u64::MAX`].
    pub fn disk_total_bytes(&self) -> (res: u64)
        ensures
            res == row_disk_total(self@),
    {
        self.disk_image_bytes.saturating_add(self.disk_wal_bytes).saturating_add(self.disk_passages_bytes).saturating_add(
            self.disk_passages_wal_bytes,
        ).saturating_add(self.disk_sidecar_bytes)
    }

    fn copy(&self) -> (res: ContextGaugeRow)
        ensures
            res@ == self@,
    {
        ContextGaugeRow {
            name: self.name.clone(),
            pinned: self.pinned,
            resident_bytes: self.resident_bytes,
            disk_image_bytes: self.disk_image_bytes,
            disk_wal_bytes: self.disk_wal_bytes,
            disk_passages_bytes: self.disk_passages_bytes,
            disk_passages_wal_bytes: self.disk_passages_wal_bytes,
            disk_sidecar_bytes: self.disk_sidecar_bytes,
            quota_storage_bytes: self.quota_storage_bytes,
            quota_cache_bytes: self.quota_cache_bytes,
            concepts: self.concepts,
            associations: self.associations,
            labels: self.labels,
            sources: self.sources,
        }
    }
}

pub open spec fn row_disk_total(row: RowView) -> u64 {
    state::capped(
        row.disk_image_bytes + row.disk_wal_bytes + row.disk_passages_bytes + row.disk_passages_wal_bytes
            + row.disk_sidecar_bytes,
    )
}

/// The counts of an entry's graph: live where it is loaded, else as of the
/// last save.
pub open spec fn shown_stats(e: Entry) -> ContextStats {
    match e.slot {
        Slot::Hot(facts) => facts.stats,
        Slot::Cold => e.stats,
    }
}

/// One context's row.
pub open spec fn row_of(state: AppState, name: Seq<char>) -> RowView {
    let e = state.registry@[name];
    let known = state.context_quotas@.contains_key(name);
    let quota = state.context_quotas@[name];
    RowView {
        name,
        pinned: e.meta.pinned,
        resident_bytes: residency::resident_bytes(e),
        disk_image_bytes: e.disk.image_bytes,
        disk_wal_bytes: e.wal_bytes,
        disk_passages_bytes: e.disk.passages_bytes,
        disk_passages_wal_bytes: e.passage_log_bytes(),
        disk_sidecar_bytes: e.disk.sidecar_bytes,
        quota_storage_bytes: if known {
            quota.storage_bytes
        } else {
            None
        },
        quota_cache_bytes: if known {
            quota.cache_bytes
        } else {
            None
        },
        concepts: shown_stats(e).concepts,
        associations: shown_stats(e).associations,
        labels: shown_stats(e).labels,
        sources: shown_stats(e).sources,
    }
}

/// Every context's row, in name order.
pub open spec fn all_rows(state: AppState) -> Seq<RowView> {
    names::in_order(state.registry@.dom()).map_values(|n: Seq<char>| row_of(state, n))
}

/// The keys by which rows are ranked: the most bytes on disk first.
pub open spec fn disk_keys(rows: Seq<RowView>) -> Seq<(u64, u64)> {
    rows.map_values(|r: RowView| ((u64::MAX - row_disk_total(r)) as u64, 0u64))
}

/// The position is among the first `keep` of an order.
pub open spec fn makes_the_cut(order: Seq<usize>, keep: usize, i: int) -> bool {
    exists|a: int| 0 <= a < keep && a < order.len() && #[trigger] order[a] == i
}

/// The rows among the first `n` that make the cut, in name order.
pub open spec fn kept_upto(rows: Seq<RowView>, order: Seq<usize>, keep: usize, n: nat) -> Seq<RowView>
    decreases n,
{
    if n == 0 {
        Seq::empty()
    } else {
        let rest = kept_upto(rows, order, keep, (n - 1) as nat);
        if makes_the_cut(order, keep, n - 1) {
            rest.push(rows[n - 1])
        } else {
            rest
        }
    }
}

/// What the per-context rows of a scrape are: none, all, or those with the
/// most bytes on disk, in name order.
pub open spec fn rows_shown(state: AppState, shown: Seq<RowView>) -> bool {
    let rows = all_rows(state);
    match state.options.per_context_metrics {
        PerContextMetrics::Off => shown == Seq::<RowView>::empty(),
        PerContextMetrics::All => shown == rows,
        PerContextMetrics::Top(keep) => exists|order: Seq<usize>| #[trigger]
            ranking::is_ranking(disk_keys(rows), order) && shown == kept_upto(rows, order, keep, rows.len()),
    }
}

/// A sum over the entries of the first `n` names.
pub open spec fn total_of(registry: Map<Seq<char>, Entry>, order: Seq<Seq<char>>, n: nat, f: spec_fn(Entry) -> u64) -> nat
    decreases n,
{
    if n == 0 {
        0
    } else {
        total_of(registry, order, (n - 1) as nat, f) + f(registry[order[n - 1]]) as nat
    }
}

/// A sum over every entry, as a gauge holds it.
pub open spec fn gauge(state: AppState, f: spec_fn(Entry) -> u64) -> u64 {
    let order = names::in_order(state.registry@.dom());
    state::capped(total_of(state.registry@, order, order.len(), f) as int)
}

pub open spec fn one_if_hot(e: Entry) -> u64 {
    if e.slot is Hot {
        1
    } else {
        0
    }
}

/// Point-in-time gauges. `B` is what the embedding provider's circuit breaker
/// says of itself.
pub struct GaugeSnapshot<B> {
    pub contexts_registered: u64,
    pub groups_registered: u64,
    pub contexts_resident: u64,
    pub resident_bytes: u64,
    pub wal_bytes: u64,
    pub passages_wal_bytes: u64,
    pub dead_edges_total: u64,
    pub dead_attributions_total: u64,
    pub arena_slack_total: u64,
    pub unsourced_edges_total: u64,
    /// The bits of each context's unsourced weight, in name order.
    pub unsourced_weights: Vec<u64>,
    /// The state of the provider's breaker, where there is one.
    pub embed_breaker: Option<B>,
    pub retrieval_cache_entries: u64,
    pub retrieval_cache_bytes: u64,
    pub semantic_cache_entries: u64,
    pub per_context: Vec<ContextGaugeRow>,
}

/// The usage counters after a read.
pub open spec fn after_read(u: ContextUsage, empty: bool, now: u64) -> ContextUsage {
    ContextUsage {
        reads: u.reads.wrapping_add(1),
        empty_reads: if empty {
            u.empty_reads.wrapping_add(1)
        } else {
            u.empty_reads
        },
        last_read_epoch: now,
        ..u
    }
}

/// The usage counters after a write.
pub open spec fn after_write(u: ContextUsage, now: u64) -> ContextUsage {
    ContextUsage { writes: u.writes.wrapping_add(1), last_write_epoch: now, ..u }
}

/// The entry with its usage noted as written.
pub open spec fn usage_claimed(e: Entry) -> Entry {
    Entry { usage_dirty: false, ..e }
}

/// The names among the first `n` whose usage was not written yet.
pub open spec fn unsaved_upto(registry: Map<Seq<char>, Entry>, order: Seq<Seq<char>>, n: nat) -> Seq<Seq<char>>
    decreases n,
{
    if n == 0 {
        Seq::empty()
    } else {
        let rest = unsaved_upto(registry, order, (n - 1) as nat);
        if registry[order[n - 1]].usage_dirty {
            rest.push(order[n - 1])
        } else {
            rest
        }
    }
}

impl AppState {
    /// The registry's own counters.
    pub fn metrics(&self) -> (res: &Metrics)
        ensures
            *res == self.metrics,
    {
        &self.metrics
    }

    /// Tries to become the sole maintenance sweep; `None` means that one is
    /// running.
    pub fn try_enter_maintenance(&mut self) -> (res: Option<MaintenanceGuard>)
        ensures
            old(self).nonces_kept(*final(self)),
            res is Some == !old(self).metrics.maintenance,
            *final(self) == (AppState { metrics: Metrics { maintenance: true, ..old(self).metrics }, ..*old(self) }),
    {
        if self.metrics.maintenance {
            return None;
        }
        self.metrics.maintenance = true;
        Some(MaintenanceGuard { entered: true })
    }

    /// Reopens the server.
    pub fn leave_maintenance(&mut self, guard: MaintenanceGuard)
        ensures
            old(self).nonces_kept(*final(self)),
            *final(self) == (AppState { metrics: Metrics { maintenance: false, ..old(self).metrics }, ..*old(self) }),
    {
        self.metrics.maintenance = false;
    }

    /// Counts one retrieval twice over: by operation, and in the context's
    /// own usage.
    pub fn note_search(&mut self, op: RetrievalCacheOp, name: &str, empty: bool, now: u64)
        requires
            old(self).wf(),
        ensures
            final(self).wf(),
            old(self).nonces_kept(*final(self)),
            *final(self) == (AppState { registry: final(self).registry, metrics: final(self).metrics, ..*old(self) }),
            final(self).metrics == (Metrics {
                searches: old(self).metrics.searches.plus_one(op),
                empty_searches: if empty {
                    old(self).metrics.empty_searches.plus_one(op)
                } else {
                    old(self).metrics.empty_searches
                },
                ..old(self).metrics
            }),
            final(self).registry@ == if old(self).registry@.contains_key(name@) {
                let e = old(self).registry@[name@];
                old(self).registry@.insert(
                    name@,
                    (Entry { usage: after_read(e.usage, empty, now), usage_dirty: true, ..e }),
                )
            } else {
                old(self).registry@
            },
    {
        self.metrics.searches.count(op);
        if empty {
            self.metrics.empty_searches.count(op);
        }
        self.note_read(name, empty, now);
    }

    /// Counts one read of a context at the time `now`. Unknown names are
    /// skipped.
    pub fn note_read(&mut self, name: &str, empty: bool, now: u64)
        requires
            old(self).wf(),
        ensures
            final(self).wf(),
            old(self).nonces_kept(*final(self)),
            *final(self) == (AppState { registry: final(self).registry, ..*old(self) }),
            final(self).registry@ == if old(self).registry@.contains_key(name@) {
                let e = old(self).registry@[name@];
                old(self).registry@.insert(
                    name@,
                    (Entry { usage: after_read(e.usage, empty, now), usage_dirty: true, ..e }),
                )
            } else {
                old(self).registry@
            },
    {
        if let Some(entry) = self.registry.get_mut(name) {
            entry.usage.reads = entry.usage.reads.wrapping_add(1);
            if empty {
                entry.usage.empty_reads = entry.usage.empty_reads.wrapping_add(1);
            }
            entry.usage.last_read_epoch = now;
            entry.usage_dirty = true;
        }
    }

    /// Counts one write to a context at the time `now`. Unknown names are
    /// skipped.
    pub fn note_write(&mut self, name: &str, now: u64)
        requires
            old(self).wf(),
        ensures
            final(self).wf(),
            old(self).nonces_kept(*final(self)),
            *final(self) == (AppState { registry: final(self).registry, ..*old(self) }),
            final(self).registry@ == if old(self).registry@.contains_key(name@) {
                let e = old(self).registry@[name@];
                old(self).registry@.insert(
                    name@,
                    (Entry { usage: after_write(e.usage, now), usage_dirty: true, ..e }),
                )
            } else {
                old(self).registry@
            },
    {
        if let Some(entry) = self.registry.get_mut(name) {
            entry.usage.writes = entry.usage.writes.wrapping_add(1);
            entry.usage.last_write_epoch = now;
            entry.usage_dirty = true;
        }
    }

    /// Claims every usage snapshot that no sidecar has seen, in name order. A
    /// read that is counted after the claim marks its context again. A
    /// replica writes none.
    pub fn persist_usage(&mut self) -> (res: Vec<UsageWrite>)
        requires
            old(self).wf(),
        ensures
            final(self).wf(),
            old(self).nonces_kept(*final(self)),
            *final(self) == (AppState { registry: final(self).registry, ..*old(self) }),
            if old(self).replica is Some {
                res.len() == 0 && final(self).registry@ == old(self).registry@
            } else {
                let order = names::in_order(old(self).registry@.dom());
                &&& final(self).registry@ == old(self).registry@.map_values(|e: Entry| usage_claimed(e))
                &&& res@.map_values(|w: UsageWrite| w.name@) == unsaved_upto(old(self).registry@, order, order.len())
                &&& forall|i: int|
                    0 <= i < res.len() ==> {
                        let e = old(self).registry@[(#[trigger] res@[i]).name@];
                        res@[i].serial == e.serial && e.sidecar_is(e.stats, res@[i].sidecar)
                    }
            },
    {
        let mut res: Vec<UsageWrite> = Vec::new();
        if self.replica.is_some() {
            return res;
        }
        let ghost was = self.registry@;
        let ghost order = self.registry.order();
        let n: usize = self.registry.len();
        let mut i: usize = 0;
        proof {
            self.registry.order_is_domain();
            assert(res@.map_values(|w: UsageWrite| w.name@) =~= unsaved_upto(was, order, 0));
        }
        while i < n
            invariant
                self.wf(),
                was == old(self).registry@,
                *self == (AppState { registry: self.registry, ..*old(self) }),
                self.registry.order() == order,
                self.registry@.dom() == was.dom(),
                names::ascending(order),
                forall|j: int| 0 <= j < order.len() ==> was.contains_key(#[trigger] order[j]),
                n == order.len(),
                i <= n,
                forall|j: int| 0 <= j < i ==> self.registry@[#[trigger] order[j]] == usage_claimed(was[order[j]]),
                forall|j: int| i <= j < n ==> self.registry@[#[trigger] order[j]] == was[order[j]],
                res@.map_values(|w: UsageWrite| w.name@) == unsaved_upto(was, order, i as nat),
                forall|k: int|
                    0 <= k < res.len() ==> {
                        let e = was[(#[trigger] res@[k]).name@];
                        res@[k].serial == e.serial && e.sidecar_is(e.stats, res@[k].sidecar)
                    },
            decreases n - i,
        {
            let name = self.registry.key_at(i).clone();
            assert(order[i as int] == name@);
            let entry = self.registry.value_at_mut(i);
            if entry.usage_dirty {
                let sidecar = entry.sidecar(entry.stats);
                let write = UsageWrite { name, serial: entry.serial, sidecar };
                entry.usage_dirty = false;
                let ghost before = res@;
                res.push(write);
                assert(res@.map_values(|w: UsageWrite| w.name@) =~= before.map_values(|w: UsageWrite| w.name@).push(name@));
            }
            proof {
                assert forall|j: int| 0 <= j < n && j != i implies #[trigger] order[j] != name@ by {
                    names::before_irreflexive(name@);
                    if j < i {
                        assert(names::before(order[j], order[i as int]));
                    } else {
                        assert(names::before(order[i as int], order[j]));
                    }
                }
                assert(self.registry@.dom() =~= was.dom());
            }
            i = i + 1;
        }
        proof {
            let goal = was.map_values(|e: Entry| usage_claimed(e));
            assert forall|k: Seq<char>| goal.contains_key(k) implies self.registry@[k] == goal[k] by {
                self.registry.order_is_domain();
                assert(order.contains(k));
                let j = choose|j: int| 0 <= j < order.len() && order[j] == k;
                assert(self.registry@[order[j]] == usage_claimed(was[order[j]]));
            }
            assert(self.registry@ =~= goal);
            self.registry.order_is_domain();
        }
        res
    }

    /// Ends the write of a usage snapshot: one that failed is marked again.
    pub fn usage_persisted(&mut self, name: &str, serial: u64, written: bool)
        requires
            old(self).wf(),
        ensures
            final(self).wf(),
            old(self).nonces_kept(*final(self)),
            *final(self) == (AppState { registry: final(self).registry, ..*old(self) }),
            final(self).registry@ == if !written && old(self).live(name@, serial) {
                old(self).registry@.insert(name@, (Entry { usage_dirty: true, ..old(self).registry@[name@] }))
            } else {
                old(self).registry@
            },
    {
        if written {
            return;
        }
        if let Some(entry) = self.registry.get_mut(name) {
            if entry.serial == serial {
                entry.usage_dirty = true;
            } else {
                assert(old(self).registry@.insert(name@, *entry) =~= old(self).registry@);
            }
        }
    }

    /// Some quota declares a storage ceiling.
    pub open spec fn has_storage_quota(&self) -> bool {
        exists|n: Seq<char>| #[trigger] self.context_quotas@.contains_key(n) && self.context_quotas@[n].storage_bytes is Some
    }

    fn any_storage_quota(&self) -> (res: bool)
        requires
            self.wf(),
        ensures
            res == self.has_storage_quota(),
    {
        let n: usize = self.context_quotas.len();
        let ghost order = self.context_quotas.order();
        let mut i: usize = 0;
        proof {
            self.context_quotas.order_is_domain();
        }
        while i < n
            invariant
                self.wf(),
                order == self.context_quotas.order(),
                n == order.len(),
                i <= n,
                forall|j: int| 0 <= j < i ==> self.context_quotas@[#[trigger] order[j]].storage_bytes is None,
            decreases n - i,
        {
            if self.context_quotas.value_at(i).storage_bytes.is_some() {
                let name = self.context_quotas.key_at(i);
                assert(self.context_quotas@.contains_key(name@));
                return true;
            }
            i = i + 1;
        }
        proof {
            assert forall|k: Seq<char>| #[trigger] self.context_quotas@.contains_key(k) implies self.context_quotas@[k].storage_bytes is None by {
                self.context_quotas.order_is_domain();
                assert(order.contains(k));
            }
        }
        false
    }

    /// The contexts whose files are to be measured: none while neither the
    /// per-context gauges nor a storage quota reads the sizes, else all, in
    /// name order. For each, the lengths of [`disk_files`] go through
    /// [`disk_usage_of`] to [`AppState::disk_refreshed`].
    pub fn refresh_disk_usage(&self) -> (res: Vec<Handle>)
        requires
            self.wf(),
        ensures
            if self.options.per_context_metrics == PerContextMetrics::Off && !self.has_storage_quota() {
                res.len() == 0
            } else {
                &&& res@.map_values(|h: Handle| h.name@) == names::in_order(self.registry@.dom())
                &&& forall|i: int| 0 <= i < res.len() ==> self.live((#[trigger] res@[i]).name@, res@[i].serial)
            },
    {
        if self.options.per_context_metrics == PerContextMetrics::Off && !self.any_storage_quota() {
            return Vec::new();
        }
        self.flush_dirty()
    }

    /// Takes a context's sizes in.
    pub fn disk_refreshed(&mut self, name: &str, serial: u64, disk: ContextDiskUsage)
        requires
            old(self).wf(),
        ensures
            final(self).wf(),
            old(self).nonces_kept(*final(self)),
            *final(self) == (AppState { registry: final(self).registry, ..*old(self) }),
            final(self).registry@ == if old(self).live(name@, serial) {
                old(self).registry@.insert(name@, (Entry { disk, ..old(self).registry@[name@] }))
            } else {
                old(self).registry@
            },
    {
        if let Some(entry) = self.registry.get_mut(name) {
            if entry.serial == serial {
                entry.disk = disk;
            } else {
                assert(old(self).registry@.insert(name@, *entry) =~= old(self).registry@);
            }
        }
    }

    /// The gauges for a scrape, computed from the registry, so that they
    /// cannot drift. Every sum is at most [`u64::MAX`]. `embed_breaker` is the
    /// breaker's state at this moment, where there is a breaker.
    pub fn gauge_snapshot<B>(&self, embed_breaker: Option<B>) -> (res: GaugeSnapshot<B>)
        requires
            self.wf(),
        ensures
            res.embed_breaker == embed_breaker,
            res.contexts_registered == self.registry@.dom().len(),
            res.groups_registered == self.groups@.dom().len(),
            res.contexts_resident == gauge(*self, |e: Entry| one_if_hot(e)),
            res.resident_bytes == gauge(*self, |e: Entry| residency::resident_bytes(e)),
            res.wal_bytes == gauge(*self, |e: Entry| e.wal_bytes),
            res.passages_wal_bytes == gauge(*self, |e: Entry| e.passage_log_bytes()),
            res.dead_edges_total == gauge(*self, |e: Entry| shown_stats(e).dead_edges),
            res.dead_attributions_total == gauge(*self, |e: Entry| shown_stats(e).dead_attributions),
            res.arena_slack_total == gauge(*self, |e: Entry| shown_stats(e).arena_slack),
            res.unsourced_edges_total == gauge(*self, |e: Entry| shown_stats(e).unsourced_edges),
            res.unsourced_weights@ == names::in_order(self.registry@.dom()).map_values(
                |n: Seq<char>| shown_stats(self.registry@[n]).unsourced_weight,
            ),
            res.retrieval_cache_entries == self.retrieval_cache@.slots.len(),
            res.retrieval_cache_bytes == retrieval_cache::total_cost(self.retrieval_cache@.slots),
            res.semantic_cache_entries == semantic_cache::claim_count(self.semantic_cache@.clusters),
            rows_shown(*self, res.per_context@.map_values(|r: ContextGaugeRow| r@)),
    {
        let ghost registry = self.registry@;
        let ghost order = self.registry.order();
        let ghost f_hot = |e: Entry| one_if_hot(e);
        let ghost f_resident = |e: Entry| residency::resident_bytes(e);
        let ghost f_wal = |e: Entry| e.wal_bytes;
        let ghost f_log = |e: Entry| e.passage_log_bytes();
        let ghost f_edges = |e: Entry| shown_stats(e).dead_edges;
        let ghost f_attributions = |e: Entry| shown_stats(e).dead_attributions;
        let ghost f_slack = |e: Entry| shown_stats(e).arena_slack;
        let ghost f_unsourced = |e: Entry| shown_stats(e).unsourced_edges;
        let n: usize = self.registry.len();
        let mut contexts_resident: u64 = 0;
        let mut resident_bytes: u64 = 0;
        let mut wal_bytes: u64 = 0;
        let mut passages_wal_bytes: u64 = 0;
        let mut dead_edges: u64 = 0;
        let mut dead_attributions: u64 = 0;
        let mut arena_slack: u64 = 0;
        let mut unsourced_edges: u64 = 0;
        let mut unsourced_weights: Vec<u64> = Vec::new();
        let ghost weights = order.map_values(|n: Seq<char>| shown_stats(registry[n]).unsourced_weight);
        let mut i: usize = 0;
        proof {
            self.registry.order_is_domain();
        }
        while i < n
            invariant
                self.wf(),
                registry == self.registry@,
                order == self.registry.order(),
                n == order.len(),
                i <= n,
                f_hot == (|e: Entry| one_if_hot(e)),
                f_resident == (|e: Entry| residency::resident_bytes(e)),
                f_wal == (|e: Entry| e.wal_bytes),
                f_log == (|e: Entry| e.passage_log_bytes()),
                f_edges == (|e: Entry| shown_stats(e).dead_edges),
                f_attributions == (|e: Entry| shown_stats(e).dead_attributions),
                f_slack == (|e: Entry| shown_stats(e).arena_slack),
                f_unsourced == (|e: Entry| shown_stats(e).unsourced_edges),
                contexts_resident == state::capped(total_of(registry, order, i as nat, f_hot) as int),
                resident_bytes == state::capped(total_of(registry, order, i as nat, f_resident) as int),
                wal_bytes == state::capped(total_of(registry, order, i as nat, f_wal) as int),
                passages_wal_bytes == state::capped(total_of(registry, order, i as nat, f_log) as int),
                dead_edges == state::capped(total_of(registry, order, i as nat, f_edges) as int),
                dead_attributions == state::capped(total_of(registry, order, i as nat, f_attributions) as int),
                arena_slack == state::capped(total_of(registry, order, i as nat, f_slack) as int),
                unsourced_edges == state::capped(total_of(registry, order, i as nat, f_unsourced) as int),
                weights == order.map_values(|n: Seq<char>| shown_stats(registry[n]).unsourced_weight),
                unsourced_weights@ == weights.take(i as int),
            decreases n - i,
        {
            let entry = self.registry.value_at(i);
            let hot: u64 = match entry.slot {
                Slot::Hot(_) => 1,
                Slot::Cold => 0,
            };
            let stats = Self::stats_shown(entry);
            contexts_resident = contexts_resident.saturating_add(hot);
            resident_bytes = resident_bytes.saturating_add(Self::bytes_resident(entry));
            wal_bytes = wal_bytes.saturating_add(entry.wal_bytes);
            passages_wal_bytes = passages_wal_bytes.saturating_add(entry.passage_log());
            dead_edges = dead_edges.saturating_add(stats.dead_edges);
            dead_attributions = dead_attributions.saturating_add(stats.dead_attributions);
            arena_slack = arena_slack.saturating_add(stats.arena_slack);
            unsourced_edges = unsourced_edges.saturating_add(stats.unsourced_edges);
            unsourced_weights.push(stats.unsourced_weight);
            assert(unsourced_weights@ =~= weights.take(i + 1));
            i = i + 1;
        }
        assert(weights.take(i as int) =~= weights);
        let per_context = self.gauge_rows();
        GaugeSnapshot {
            contexts_registered: n as u64,
            groups_registered: self.groups.len() as u64,
            contexts_resident,
            resident_bytes,
            wal_bytes,
            passages_wal_bytes,
            dead_edges_total: dead_edges,
            dead_attributions_total: dead_attributions,
            arena_slack_total: arena_slack,
            unsourced_edges_total: unsourced_edges,
            unsourced_weights,
            embed_breaker,
            retrieval_cache_entries: self.retrieval_cache.len() as u64,
            retrieval_cache_bytes: self.retrieval_cache.bytes() as u64,
            semantic_cache_entries: self.semantic_cache.len() as u64,
            per_context,
        }
    }

    fn stats_shown(entry: &Entry) -> (res: ContextStats)
        ensures
            res == shown_stats(*entry),
    {
        match entry.slot {
            Slot::Hot(facts) => facts.stats,
            Slot::Cold => entry.stats,
        }
    }

    fn bytes_resident(entry: &Entry) -> (res: u64)
        ensures
            res == residency::resident_bytes(*entry),
    {
        entry.graph_footprint().saturating_add(entry.cache_footprint())
    }

    /// One context's row, for the context at a position.
    fn gauge_row(&self, i: usize) -> (res: ContextGaugeRow)
        requires
            self.wf(),
            i < self.registry.order().len(),
        ensures
            res@ == row_of(*self, self.registry.order()[i as int]),
    {
        let name = self.registry.key_at(i);
        let entry = self.registry.value_at(i);
        let stats = Self::stats_shown(entry);
        let (quota_storage_bytes, quota_cache_bytes) = match self.context_quotas.get(name.as_str()) {
            Some(quota) => (quota.storage_bytes, quota.cache_bytes),
            None => (None, None),
        };
        ContextGaugeRow {
            name: name.clone(),
            pinned: entry.meta.pinned,
            resident_bytes: Self::bytes_resident(entry),
            disk_image_bytes: entry.disk.image_bytes,
            disk_wal_bytes: entry.wal_bytes,
            disk_passages_bytes: entry.disk.passages_bytes,
            disk_passages_wal_bytes: entry.passage_log(),
            disk_sidecar_bytes: entry.disk.sidecar_bytes,
            quota_storage_bytes,
            quota_cache_bytes,
            concepts: stats.concepts,
            associations: stats.associations,
            labels: stats.labels,
            sources: stats.sources,
        }
    }

    /// The per-context rows that a scrape carries.
    fn gauge_rows(&self) -> (res: Vec<ContextGaugeRow>)
        requires
            self.wf(),
        ensures
            rows_shown(*self, res@.map_values(|r: ContextGaugeRow| r@)),
    {
        let mut rows: Vec<ContextGaugeRow> = Vec::new();
        if self.options.per_context_metrics == PerContextMetrics::Off {
            assert(rows@.map_values(|r: ContextGaugeRow| r@) =~= Seq::empty());
            return rows;
        }
        let ghost all = all_rows(*self);
        let ghost order = self.registry.order();
        let n: usize = self.registry.len();
        let mut keys: Vec<(u64, u64)> = Vec::new();
        let mut i: usize = 0;
        proof {
            self.registry.order_is_domain();
        }
        while i < n
            invariant
                self.wf(),
                order == self.registry.order(),
                all == order.map_values(|k: Seq<char>| row_of(*self, k)),
                n == order.len(),
                i <= n,
                rows@.map_values(|r: ContextGaugeRow| r@) == all.take(i as int),
                keys@ == disk_keys(all).take(i as int),
            decreases n - i,
        {
            let row = self.gauge_row(i);
            let total: u64 = row.disk_total_bytes();
            keys.push((u64::MAX - total, 0));
            let ghost was = rows@;
            rows.push(row);
            assert(rows@.map_values(|r: ContextGaugeRow| r@) =~= was.map_values(|r: ContextGaugeRow| r@).push(row@));
            assert(rows@.map_values(|r: ContextGaugeRow| r@) =~= all.take(i + 1));
            assert(keys@ =~= disk_keys(all).take(i + 1));
            i = i + 1;
        }
        assert(all.take(n as int) =~= all);
        assert(keys@ =~= disk_keys(all));
        match self.options.per_context_metrics {
            PerContextMetrics::Top(keep) => {
                let ranked = rank(&keys);
                let mut kept: Vec<ContextGaugeRow> = Vec::new();
                let mut i: usize = 0;
                assert(kept@.map_values(|r: ContextGaugeRow| r@) =~= Seq::empty());
                while i < n
                    invariant
                        n == all.len(),
                        rows@.map_values(|r: ContextGaugeRow| r@) == all,
                        i <= n,
                        kept@.map_values(|r: ContextGaugeRow| r@) == kept_upto(all, ranked@, keep, i as nat),
                    decreases n - i,
                {
                    assert(all[i as int] == rows@[i as int]@);
                    if Self::is_kept(&ranked, keep, i) {
                        let row = rows[i].copy();
                        let ghost was = kept@;
                        kept.push(row);
                        assert(kept@.map_values(|r: ContextGaugeRow| r@) =~= was.map_values(|r: ContextGaugeRow| r@).push(
                            row@,
                        ));
                    }
                    i = i + 1;
                }
                assert(ranking::is_ranking(disk_keys(all), ranked@));
                kept
            },
            _ => rows,
        }
    }

    fn is_kept(order: &Vec<usize>, keep: usize, i: usize) -> (res: bool)
        ensures
            res == makes_the_cut(order@, keep, i as int),
    {
        let mut a: usize = 0;
        while a < order.len() && a < keep
            invariant
                a <= order.len(),
                a <= keep,
                forall|b: int| 0 <= b < a ==> #[trigger] order@[b] != i,
            decreases order.len() - a,
        {
            if order[a] == i {
                assert(order@[a as int] == i as int);
                return true;
            }
            a = a + 1;
        }
        false
    }

    /// How many contexts there are.
    pub fn context_count(&self) -> (res: usize)
        requires
            self.wf(),
        ensures
            res == self.registry@.dom().len(),
    {
        self.registry.len()
    }
}

/// The files whose lengths make up a context's size on disk: the image, the
/// passages, then the sidecars.
pub fn disk_files(stem: &str) -> (res: Vec<String>)
    ensures
        names::views(res@) == seq![
            stem@ + ".ctx"@,
            stem@ + ".passages.bin"@,
            stem@ + ".meta.json"@,
            stem@ + ".sources.json"@,
            stem@ + ".vectors.bin"@,
            stem@ + ".pvectors.bin"@,
            stem@ + ".bm25.bin"@,
        ],
{
    let mut res: Vec<String> = Vec::new();
    res.push(image_path(stem));
    res.push(passages_path(stem));
    res.push(meta_path(stem));
    res.push(sources_path(stem));
    res.push(vectors_path(stem));
    res.push(pvectors_path(stem));
    res.push(bm25_path(stem));
    assert(names::views(res@) =~= seq![
        stem@ + ".ctx"@,
        stem@ + ".passages.bin"@,
        stem@ + ".meta.json"@,
        stem@ + ".sources.json"@,
        stem@ + ".vectors.bin"@,
        stem@ + ".pvectors.bin"@,
        stem@ + ".bm25.bin"@,
    ]);
    res
}

/// A context's size on disk from the lengths of [`disk_files`]; a file that
/// is not there has the length zero.
pub fn disk_usage_of(lengths: [u64; 7]) -> (res: ContextDiskUsage)
    ensures
        res == (ContextDiskUsage {
            image_bytes: lengths@[0],
            passages_bytes: lengths@[1],
            sidecar_bytes: state::capped(lengths@[2] + lengths@[3] + lengths@[4] + lengths@[5] + lengths@[6]),
        }),
{
    ContextDiskUsage {
        image_bytes: lengths[0],
        passages_bytes: lengths[1],
        sidecar_bytes: lengths[2].saturating_add(lengths[3]).saturating_add(lengths[4]).saturating_add(
            lengths[5],
        ).saturating_add(lengths[6]),
    }
}

/// A read that is counted between the claim of a usage snapshot and the end
/// of its write is not lost: its context is marked again.
pub proof fn racing_read_is_kept(e: Entry, empty: bool, now: u64)
    ensures
        (Entry { usage: after_read(usage_claimed(e).usage, empty, now), usage_dirty: true, ..usage_claimed(e) }).usage_dirty,
        after_read(e.usage, empty, now).reads == e.usage.reads.wrapping_add(1),
{
}

/// What a scrape shows of a context's bytes on disk is what its quota is
/// judged by.
pub proof fn gauges_and_quotas_agree(state: AppState, name: Seq<char>)
    requires
        state.registry@.contains_key(name),
    ensures
        row_disk_total(row_of(state, name)) == state::capped(state.registry@[name].disk_bytes()),
{
}

/// What a row shows of a context's bytes on disk is the sum of all five that
/// it lists, and each is the context's own.
pub proof fn rows_show_every_file(state: AppState, name: Seq<char>)
    requires
        state.registry@.contains_key(name),
    ensures
        ({
            let e = state.registry@[name];
            let row = row_of(state, name);
            let sum = e.disk.image_bytes + e.wal_bytes + e.disk.passages_bytes + e.disk.sidecar_bytes + (match e.passages {
                Some(p) => p.pending_log_bytes,
                None => e.passages_wal_bytes,
            });
            &&& row_disk_total(row) == sum || (row_disk_total(row) == u64::MAX && sum > u64::MAX)
            &&& row.name == name && row.pinned == e.meta.pinned
            &&& row.disk_image_bytes == e.disk.image_bytes && row.disk_wal_bytes == e.wal_bytes
            &&& row.disk_passages_bytes == e.disk.passages_bytes && row.disk_sidecar_bytes == e.disk.sidecar_bytes
            &&& e.passages matches Some(p) ==> row.disk_passages_wal_bytes == p.pending_log_bytes
            &&& e.passages is None ==> row.disk_passages_wal_bytes == e.passages_wal_bytes
            &&& e.slot matches Slot::Hot(facts) ==> row.concepts == facts.stats.concepts && row.associations
                == facts.stats.associations && row.labels == facts.stats.labels && row.sources == facts.stats.sources
            &&& e.slot is Cold ==> row.concepts == e.stats.concepts && row.associations == e.stats.associations && row.labels
                == e.stats.labels && row.sources == e.stats.sources
            &&& state.context_quotas@.contains_key(name) ==> row.quota_storage_bytes
                == state.context_quotas@[name].storage_bytes && row.quota_cache_bytes
                == state.context_quotas@[name].cache_bytes
            &&& !state.context_quotas@.contains_key(name) ==> row.quota_storage_bytes is None && row.quota_cache_bytes is None
        }),
{
}

/// A sum over contexts counts every one of them once: where one entry
/// changes, the sum moves by the difference that it makes and no more; and
/// over no contexts it is zero.
pub proof fn sums_move_by_what_changed(
    registry: Map<Seq<char>, Entry>,
    order: Seq<Seq<char>>,
    n: nat,
    f: spec_fn(Entry) -> u64,
    i: int,
    e: Entry,
)
    requires
        n <= order.len(),
        order.no_duplicates(),
        0 <= i < order.len(),
    ensures
        total_of(registry, order, 0, f) == 0,
        i < n ==> total_of(registry.insert(order[i], e), order, n, f) + f(registry[order[i]]) == total_of(
            registry,
            order,
            n,
            f,
        ) + f(e),
        i >= n ==> total_of(registry.insert(order[i], e), order, n, f) == total_of(registry, order, n, f),
        i < n ==> f(registry[order[i]]) <= total_of(registry, order, n, f),
    decreases n,
{
    if n > 0 {
        sums_move_by_what_changed(registry, order, (n - 1) as nat, f, i, e);
        if i != n - 1 {
            assert(order[n - 1] != order[i]);
        }
    }
}

/// A gauge over all contexts is the exact sum where it fits, and the largest
/// number where it does not; a loaded context counts one among the resident.
pub proof fn gauges_hold_their_sums(state: AppState, f: spec_fn(Entry) -> u64, e: Entry)
    ensures
        ({
            let order = names::in_order(state.registry@.dom());
            let sum = total_of(state.registry@, order, order.len(), f);
            &&& sum <= u64::MAX ==> gauge(state, f) == sum
            &&& sum > u64::MAX ==> gauge(state, f) == u64::MAX
        }),
        e.slot is Hot ==> one_if_hot(e) == 1,
        e.slot is Cold ==> one_if_hot(e) == 0,
{
}

proof fn kept_are_picked(rows: Seq<RowView>, order: Seq<usize>, keep: usize, n: nat) -> (at: Seq<int>)
    requires
        n <= rows.len(),
    ensures
        picking::picks(rows, n, |i: int| makes_the_cut(order, keep, i), kept_upto(rows, order, keep, n), at),
    decreases n,
{
    let p = |i: int| makes_the_cut(order, keep, i);
    if n == 0 {
        Seq::empty()
    } else {
        let m = (n - 1) as nat;
        let before = kept_are_picked(rows, order, keep, m);
        picking::picks_on(rows, m, p, kept_upto(rows, order, keep, m), before, kept_upto(rows, order, keep, n));
        picking::and_next(before, m, p(m as int))
    }
}

/// Where only the largest rows are shown, there is an order of all rows by
/// their bytes on disk, the most first, equal ones by name, of which the
/// first `keep` are shown and no others; they stand in name order. What is
/// returned is that order, and where each row that is shown stands.
pub proof fn the_largest_rows_are_shown(state: AppState, shown: Seq<RowView>, keep: usize) -> (res: (Seq<usize>, Seq<int>))
    requires
        state.options.per_context_metrics == PerContextMetrics::Top(keep),
        rows_shown(state, shown),
    ensures
        ({
            let rows = all_rows(state);
            let (order, at) = res;
            &&& order.len() == rows.len()
            &&& shown.len() == at.len()
            &&& forall|k: int| 0 <= k < at.len() ==> 0 <= #[trigger] at[k] < rows.len() && shown[k] == rows[at[k]]
            &&& forall|k: int, l: int| 0 <= k < l < at.len() ==> #[trigger] at[k] < #[trigger] at[l]
            &&& forall|a: int| 0 <= a < order.len() ==> #[trigger] order[a] < rows.len()
            &&& forall|a: int, b: int|
                0 <= a < b < order.len() ==> {
                    let x = row_disk_total(rows[#[trigger] order[a] as int]);
                    let y = row_disk_total(rows[#[trigger] order[b] as int]);
                    x > y || (x == y && order[a] < order[b])
                }
            &&& forall|a: int| 0 <= a < keep && a < order.len() ==> at.contains(#[trigger] order[a] as int)
            &&& forall|a: int| keep <= a < order.len() ==> !at.contains(#[trigger] order[a] as int)
        }),
{
    let rows = all_rows(state);
    let order = choose|order: Seq<usize>| #[trigger]
        ranking::is_ranking(disk_keys(rows), order) && shown == kept_upto(rows, order, keep, rows.len());
    let at = kept_are_picked(rows, order, keep, rows.len());
    let p = |i: int| makes_the_cut(order, keep, i);
    assert forall|a: int, b: int| 0 <= a < b < order.len() implies {
        let x = row_disk_total(rows[#[trigger] order[a] as int]);
        let y = row_disk_total(rows[#[trigger] order[b] as int]);
        x > y || (x == y && order[a] < order[b])
    } by {
        assert(ranking::ranks_before(disk_keys(rows), order[a] as int, order[b] as int));
    }
    assert forall|a: int| 0 <= a < keep && a < order.len() implies at.contains(#[trigger] order[a] as int) by {
        assert(p(order[a] as int));
    }
    assert forall|a: int| keep <= a < order.len() implies !at.contains(#[trigger] order[a] as int) by {
        if at.contains(order[a] as int) {
            let k = choose|k: int| 0 <= k < at.len() && at[k] == order[a] as int;
            assert(p(at[k]));
            let b = choose|b: int| 0 <= b < keep && b < order.len() && #[trigger] order[b] == order[a] as int;
            assert(ranking::ranks_before(disk_keys(rows), order[b] as int, order[a] as int));
        }
    }
    (order, at)
}

/// Where rows are not shown there are none; where all are, there is one for
/// every context, in name order.
pub proof fn all_rows_are_shown_or_none(state: AppState, shown: Seq<RowView>, i: int)
    requires
        rows_shown(state, shown),
    ensures
        state.options.per_context_metrics == PerContextMetrics::Off ==> shown.len() == 0,
        state.options.per_context_metrics == PerContextMetrics::All ==> shown.len() == names::in_order(
            state.registry@.dom(),
        ).len() && (0 <= i < shown.len() ==> shown[i] == row_of(state, names::in_order(state.registry@.dom())[i])),
{
}

/// A read adds one to the reads, an empty one also to the empty reads, and is
/// the last read; a write adds one to the writes and is the last write. What
/// the other kind counted stays.
pub proof fn uses_count_one(u: ContextUsage, empty: bool, now: u64)
    ensures
        u.reads < u64::MAX ==> after_read(u, empty, now).reads == u.reads + 1,
        u.reads == u64::MAX ==> after_read(u, empty, now).reads == 0,
        empty && u.empty_reads < u64::MAX ==> after_read(u, empty, now).empty_reads == u.empty_reads + 1,
        !empty ==> after_read(u, empty, now).empty_reads == u.empty_reads,
        after_read(u, empty, now).last_read_epoch == now,
        after_read(u, empty, now).writes == u.writes,
        after_read(u, empty, now).last_write_epoch == u.last_write_epoch,
        u.writes < u64::MAX ==> after_write(u, now).writes == u.writes + 1,
        u.writes == u64::MAX ==> after_write(u, now).writes == 0,
        after_write(u, now).last_write_epoch == now,
        after_write(u, now).reads == u.reads,
        after_write(u, now).empty_reads == u.empty_reads,
        after_write(u, now).last_read_epoch == u.last_read_epoch,
{
}

/// A claim of the unsaved usage takes every context whose mark is set and no
/// other, in order, and clears the mark and nothing else. What is returned is
/// where each stands.
pub proof fn unsaved_usage_is_claimed(
    registry: Map<Seq<char>, Entry>,
    order: Seq<Seq<char>>,
    n: nat,
    e: Entry,
) -> (at: Seq<int>)
    requires
        n <= order.len(),
    ensures
        picking::picks(order, n, |i: int| registry[order[i]].usage_dirty, unsaved_upto(registry, order, n), at),
        !usage_claimed(e).usage_dirty,
        (Entry { usage_dirty: e.usage_dirty, ..usage_claimed(e) }) == e,
    decreases n,
{
    let p = |i: int| registry[order[i]].usage_dirty;
    if n == 0 {
        Seq::empty()
    } else {
        let m = (n - 1) as nat;
        let before = unsaved_usage_is_claimed(registry, order, m, e);
        picking::picks_on(order, m, p, unsaved_upto(registry, order, m), before, unsaved_upto(registry, order, n));
        picking::and_next(before, m, p(m as int))
    }
}

} // verus!
