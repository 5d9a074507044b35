//! Residency: which contexts leave memory when the budget is exceeded, and
//! how one leaves.
use crate::names;
use crate::ranking;
use crate::ranking::rank;
use crate::state;
use crate::state::{AppState, Entry, GraphFacts, MetaFile, Slot};
use crate::text::same;
use vstd::prelude::*;

verus! {

/// A context that a budget sweep may evict.
pub struct Candidate {
    pub name: String,
    pub serial: u64,
    pub bytes: u64,
}

pub struct CandidateView {
    pub name: Seq<char>,
    pub serial: u64,
    pub bytes: u64,
}

impl View for Candidate {
    type V = CandidateView;

    open spec fn view(&self) -> CandidateView {
        CandidateView { name: self.name@, serial: self.serial, bytes: self.bytes }
    }
}

/// A budget sweep under way: its candidates in the order in which they go.
pub struct BudgetSweep {
    pub candidates: Vec<Candidate>,
    pub next: usize,
    /// What the candidates that are left weigh, by the sweep's own count.
    pub total: u64,
}

/// The resident bytes of an entry.
pub open spec fn resident_bytes(e: Entry) -> u64 {
    state::capped(e.graph_bytes() + state::capped(e.cache_bytes()))
}

/// An entry that a budget sweep looks at: not pinned, and resident.
pub open spec fn is_candidate(e: Entry) -> bool {
    !e.meta.pinned && resident_bytes(e) > 0
}

/// The candidates among the first `n` names.
pub open spec fn candidates_upto(registry: Map<Seq<char>, Entry>, order: Seq<Seq<char>>, n: nat) -> Seq<CandidateView>
    decreases n,
{
    if n == 0 {
        Seq::empty()
    } else {
        let rest = candidates_upto(registry, order, (n - 1) as nat);
        let e = registry[order[n - 1]];
        if is_candidate(e) {
            rest.push(CandidateView { name: order[n - 1], serial: e.serial, bytes: resident_bytes(e) })
        } else {
            rest
        }
    }
}

/// Every candidate, in name order.
pub open spec fn all_candidates(registry: Map<Seq<char>, Entry>) -> Seq<CandidateView> {
    candidates_upto(registry, names::in_order(registry.dom()), names::in_order(registry.dom()).len())
}

/// What candidates weigh together.
pub open spec fn total_bytes(candidates: Seq<CandidateView>) -> nat
    decreases candidates.len(),
{
    if candidates.len() == 0 {
        0
    } else {
        total_bytes(candidates.drop_last()) + candidates.last().bytes as nat
    }
}

/// The candidate is over its declared cache ceiling.
pub open spec fn over_ceiling(state: AppState, c: CandidateView) -> bool {
    state.context_quotas@.contains_key(c.name) && match state.context_quotas@[c.name].cache_bytes {
        Some(ceiling) => c.bytes > ceiling,
        None => false,
    }
}

/// The keys by which candidates go: those over their ceiling first, the
/// least recently used first within each half.
pub open spec fn eviction_keys(state: AppState, candidates: Seq<CandidateView>) -> Seq<(u64, u64)> {
    candidates.map_values(
        |c: CandidateView| (if over_ceiling(state, c) {
            0u64
        } else {
            1u64
        }, state.registry@[c.name].last_touch),
    )
}

/// `picked` holds the candidates in eviction order.
pub open spec fn eviction_order(state: AppState, picked: Seq<CandidateView>) -> bool {
    let all = all_candidates(state.registry@);
    exists|order: Seq<usize>| #[trigger]
        ranking::is_ranking(eviction_keys(state, all), order) && picked.len() == order.len() && forall|k: int|
            0 <= k < picked.len() ==> #[trigger] picked[k] == all[order[k] as int]
}

/// An operation passes without a sweep: it is not the turn
/// for a sweep, and the estimate fits the budget.
pub open spec fn gate_passes(state: AppState) -> bool {
    state.budget_ops % 64 != 0 && state.resident_estimate <= budget_as_i64(state.options.cache_bytes)
}

/// The budget in the estimate's own type.
pub open spec fn budget_as_i64(bytes: u64) -> i64 {
    if bytes <= i64::MAX {
        bytes as i64
    } else {
        i64::MAX
    }
}

/// An eviction that has to save the graph first: which state of the context
/// it saves, and the sidecar to write.
pub struct EvictTicket {
    pub name: String,
    pub serial: u64,
    pub generation: u64,
    pub wal_seq: u64,
    pub graph_revision: u64,
    pub config_revision: u64,
    pub sidecar: MetaFile,
}

/// What an eviction has to do with the graph.
pub enum EvictStep {
    /// Nothing was freed: the context is pinned, no longer there, or being
    /// saved by another eviction.
    Refused,
    /// Its image is not current: write the sidecar and the image, then report
    /// to [`AppState::evict_saved`].
    Save(EvictTicket),
    /// The graph left memory.
    Cooled,
    /// There was no graph in memory.
    WasCold,
}

/// The entry after its graph left memory. A flush that staged its image
/// before sees by the generation that the graph it captured is gone.
pub open spec fn cooled(e: Entry, stats: state::ContextStats) -> Entry {
    Entry {
        stats,
        slot: Slot::Cold,
        image_generation: e.image_generation.wrapping_add(1),
        counted_bytes: 0,
        ..e
    }
}

/// What is to be done with what else a context holds in memory.
#[derive(Clone, Copy, PartialEq, Eq, Structural, Debug)]
pub struct ResidentsDropped {
    pub freed: bool,
    /// The keyword index was not saved: save it now, at best effort.
    pub save_bm25: bool,
}

impl AppState {
    /// The resident bytes of an entry, at most [`u64::MAX`].
    fn resident(entry: &Entry) -> (res: u64)
        ensures
            res == resident_bytes(*entry),
    {
        entry.graph_footprint().saturating_add(entry.cache_footprint())
    }

    /// Looks whether the resident contexts exceed the budget. A cheap gate
    /// stands in front: between two turns of sixty-four operations the
    /// estimate decides. A sweep counts anew; where the count exceeds the
    /// budget it comes back with its candidates in the order in which they
    /// go.
    pub fn enforce_budget(&mut self) -> (res: Option<BudgetSweep>)
        requires
            old(self).wf(),
        ensures
            final(self).wf(),
            old(self).nonces_kept(*final(self)),
            *final(self) == (AppState {
                budget_ops: old(self).budget_ops.wrapping_add(1),
                resident_estimate: final(self).resident_estimate,
                ..*old(self)
            }),
            ({
                let all = all_candidates(old(self).registry@);
                let total = state::capped(total_bytes(all) as int);
                if gate_passes(*old(self)) {
                    res is None && final(self).resident_estimate == old(self).resident_estimate
                } else {
                    &&& final(self).resident_estimate == total as i64
                    &&& res is None == (total <= old(self).options.cache_bytes)
                    &&& res matches Some(sweep) ==> sweep.next == 0 && sweep.total == total && eviction_order(
                        *old(self),
                        sweep.candidates@.map_values(|c: Candidate| c@),
                    )
                }
            }),
    {
        let ops: u64 = self.budget_ops;
        self.budget_ops = ops.wrapping_add(1);
        let budget: i64 = if self.options.cache_bytes <= 0x7fff_ffff_ffff_ffff {
            self.options.cache_bytes as i64
        } else {
            0x7fff_ffff_ffff_ffff
        };
        if ops % 64 != 0 && self.resident_estimate <= budget {
            return None;
        }
        let ghost registry = self.registry@;
        let ghost order = self.registry.order();
        let n: usize = self.registry.len();
        let mut found: Vec<Candidate> = Vec::new();
        let mut keys: Vec<(u64, u64)> = Vec::new();
        let mut total: u64 = 0;
        let mut i: usize = 0;
        proof {
            self.registry.order_is_domain();
            assert(keys@ =~= eviction_keys(*self, candidates_upto(registry, order, 0)));
            assert(found@.map_values(|c: Candidate| c@) =~= candidates_upto(registry, order, 0));
        }
        while i < n
            invariant
                self.wf(),
                registry == self.registry@,
                order == self.registry.order(),
                n == order.len(),
                i <= n,
                found@.map_values(|c: Candidate| c@) == candidates_upto(registry, order, i as nat),
                keys@ == eviction_keys(*self, candidates_upto(registry, order, i as nat)),
                total == state::capped(total_bytes(candidates_upto(registry, order, i as nat)) as int),
            decreases n - i,
        {
            let name = self.registry.key_at(i);
            let entry = self.registry.value_at(i);
            let ghost sofar = candidates_upto(registry, order, i as nat);
            let bytes: u64 = Self::resident(entry);
            if !entry.meta.pinned && bytes > 0 {
                let over = match self.context_quotas.get(name.as_str()) {
                    Some(quota) => match quota.cache_bytes {
                        Some(ceiling) => bytes > ceiling,
                        None => false,
                    },
                    None => false,
                };
                let class: u64 = if over {
                    0
                } else {
                    1
                };
                let c = Candidate { name: name.clone(), serial: entry.serial, bytes };
                let ghost was = found@;
                found.push(c);
                keys.push((class, entry.last_touch));
                total = total.saturating_add(bytes);
                proof {
                    assert(found@.map_values(|x: Candidate| x@) =~= was.map_values(|x: Candidate| x@).push(c@));
                    assert(sofar.push(c@).drop_last() =~= sofar);
                    assert(keys@ =~= eviction_keys(*self, sofar.push(c@)));
                }
            }
            i = i + 1;
        }
        self.resident_estimate = total as i64;
        if total <= self.options.cache_bytes {
            return None;
        }
        let ranked = rank(&keys);
        let mut candidates: Vec<Candidate> = Vec::new();
        let mut k: usize = 0;
        while k < ranked.len()
            invariant
                k <= ranked.len(),
                ranking::is_ranking(keys@, ranked@),
                keys.len() == found.len(),
                candidates.len() == k,
                forall|j: int| 0 <= j < k ==> (#[trigger] candidates@[j])@ == found@[ranked@[j] as int]@,
            decreases ranked.len() - k,
        {
            let c = &found[ranked[k]];
            candidates.push(Candidate { name: c.name.clone(), serial: c.serial, bytes: c.bytes });
            k = k + 1;
        }
        proof {
            let all = all_candidates(registry);
            let picked = candidates@.map_values(|c: Candidate| c@);
            assert(ranking::is_ranking(eviction_keys(*old(self), all), ranked@)) by {
                assert(eviction_keys(*old(self), all) =~= keys@);
            }
            assert forall|j: int| 0 <= j < picked.len() implies #[trigger] picked[j] == all[ranked@[j] as int] by {
                assert(picked[j] == candidates@[j]@);
                assert(all[ranked@[j] as int] == found@[ranked@[j] as int]@);
            }
        }
        Some(BudgetSweep { candidates, next: 0, total })
    }

    /// The next context to evict: the first in order that is not the one just
    /// used, as long as the budget is exceeded. Its index says which.
    pub fn next_victim(&self, sweep: &mut BudgetSweep, except: &str) -> (res: Option<usize>)
        requires
            old(sweep).next <= old(sweep).candidates.len(),
        ensures
            final(sweep).candidates == old(sweep).candidates,
            final(sweep).total == old(sweep).total,
            old(sweep).next <= final(sweep).next <= old(sweep).candidates.len(),
            match res {
                Some(i) => {
                    &&& old(sweep).total > self.options.cache_bytes
                    &&& old(sweep).next <= i < old(sweep).candidates.len() && final(sweep).next == i + 1
                    &&& old(sweep).candidates@[i as int].name@ != except@
                    &&& forall|j: int| old(sweep).next <= j < i ==> (#[trigger] old(sweep).candidates@[j]).name@ == except@
                },
                None => old(sweep).total <= self.options.cache_bytes || (final(sweep).next == old(sweep).candidates.len()
                    && forall|j: int|
                    old(sweep).next <= j < old(sweep).candidates.len() ==> (#[trigger] old(sweep).candidates@[j]).name@ == except@),
            },
    {
        if sweep.total <= self.options.cache_bytes {
            return None;
        }
        let ghost start = sweep.next;
        while sweep.next < sweep.candidates.len()
            invariant
                sweep.candidates == old(sweep).candidates,
                sweep.total == old(sweep).total,
                old(sweep).total > self.options.cache_bytes,
                start == old(sweep).next,
                start <= sweep.next <= sweep.candidates.len(),
                forall|j: int| start <= j < sweep.next ==> (#[trigger] sweep.candidates@[j]).name@ == except@,
            decreases sweep.candidates.len() - sweep.next,
        {
            let at: usize = sweep.next;
            sweep.next = at + 1;
            if !same(sweep.candidates[at].name.as_str(), except) {
                return Some(at);
            }
        }
        None
    }

    /// Takes off the count what an eviction freed.
    pub fn victim_evicted(&self, sweep: &mut BudgetSweep, index: usize, freed: bool)
        requires
            index < old(sweep).candidates.len(),
        ensures
            final(sweep).candidates == old(sweep).candidates,
            final(sweep).next == old(sweep).next,
            final(sweep).total == if freed {
                old(sweep).total.saturating_sub(old(sweep).candidates@[index as int].bytes)
            } else {
                old(sweep).total
            },
    {
        if freed {
            let bytes: u64 = sweep.candidates[index].bytes;
            sweep.total = sweep.total.saturating_sub(bytes);
        }
    }

    /// Ends a sweep: the estimate is what it left.
    pub fn settle_budget(&mut self, sweep: &BudgetSweep)
        ensures
            old(self).nonces_kept(*final(self)),
            *final(self) == (AppState { resident_estimate: sweep.total as i64, ..*old(self) }),
    {
        self.resident_estimate = sweep.total as i64;
    }

    /// Evicts one context's graph, after a flush was tried. A pinned context
    /// stays. A graph whose image is not current, or that a flush holds, has
    /// to be saved first.
    pub fn evict_entry(&mut self, name: &str, serial: u64) -> (res: EvictStep)
        requires
            old(self).wf(),
        ensures
            final(self).wf(),
            old(self).nonces_kept(*final(self)),
            ({
                let e = old(self).registry@[name@];
                if !old(self).live(name@, serial) || e.meta.pinned || e.saving {
                    res is Refused && *final(self) == (AppState { registry: final(self).registry, ..*old(self) }) && final(self).registry@ == old(self).registry@
                } else {
                    match e.slot {
                        Slot::Cold => res is WasCold && *final(self) == (AppState {
                            registry: final(self).registry,
                            ..*old(self)
                        }) && final(self).registry@ == old(self).registry@,
                        Slot::Hot(facts) => if e.dirty || e.flushing {
                            &&& *final(self) == (AppState { registry: final(self).registry, ..*old(self) })
                            &&& final(self).registry@ == old(self).registry@.insert(
                                name@,
                                (Entry { saving: true, ..sealed(e) }),
                            )
                            &&& res matches EvictStep::Save(ticket) && save_ticket_of(name@, e, ticket)
                        } else {
                            &&& res is Cooled
                            &&& *final(self) == (AppState {
                                registry: final(self).registry,
                                metrics: final(self).metrics,
                                ..*old(self)
                            })
                            &&& final(self).metrics == eviction_counted(old(self).metrics, true)
                            &&& final(self).registry@ == old(self).registry@.insert(name@, cooled(e, facts.stats))
                        },
                    }
                }
            }),
    {
        match self.registry.get_mut(name) {
            None => EvictStep::Refused,
            Some(entry) => {
                if entry.serial != serial || entry.meta.pinned || entry.saving {
                    assert(old(self).registry@.insert(name@, *entry) =~= old(self).registry@);
                    return EvictStep::Refused;
                }
                match entry.slot {
                    Slot::Cold => {
                        assert(old(self).registry@.insert(name@, *entry) =~= old(self).registry@);
                        EvictStep::WasCold
                    },
                    Slot::Hot(facts) => {
                        if entry.dirty || entry.flushing {
                            let ticket = EvictTicket {
                                name: name.to_owned(),
                                serial,
                                generation: entry.image_generation,
                                wal_seq: entry.wal_seq,
                                graph_revision: entry.graph_revision,
                                config_revision: entry.config_revision,
                                sidecar: entry.sidecar(facts.stats),
                            };
                            entry.saving = true;
                            entry.slot = Slot::Hot(
                                GraphFacts {
                                    footprint: facts.footprint,
                                    stats: facts.stats,
                                    applied_seq: entry.wal_seq - 1,
                                    dice_floor: facts.dice_floor,
                                },
                            );
                            return EvictStep::Save(ticket);
                        }
                        entry.stats = facts.stats;
                        entry.slot = Slot::Cold;
                        entry.image_generation = entry.image_generation.wrapping_add(1);
                        entry.counted_bytes = 0;
                        self.metrics.evictions_ok = self.metrics.evictions_ok.wrapping_add(1);
                        EvictStep::Cooled
                    },
                }
            },
        }
    }

    /// Goes on with an eviction whose save landed, or did not. A graph that
    /// could not be saved stays in memory rather than losing writes, and so
    /// does one that was written to since: it is dirty, and the next flush
    /// saves it. Else it leaves, and its log can be truncated.
    pub fn evict_saved(&mut self, ticket: &EvictTicket, saved: bool) -> (freed: bool)
        requires
            old(self).wf(),
        ensures
            final(self).wf(),
            old(self).nonces_kept(*final(self)),
            *final(self) == (AppState { registry: final(self).registry, metrics: final(self).metrics, ..*old(self) }),
            ({
                let e = old(self).registry@[ticket.name@];
                let live = old(self).live(ticket.name@, ticket.serial);
                &&& freed == (live && saved && covered(e, *ticket))
                &&& final(self).metrics == if freed {
                    eviction_counted(old(self).metrics, true)
                } else if saved {
                    old(self).metrics
                } else {
                    eviction_counted(old(self).metrics, false)
                }
                &&& final(self).registry@ == if live {
                    old(self).registry@.insert(ticket.name@, after_save(e, *ticket, saved))
                } else {
                    old(self).registry@
                }
            }),
    {
        if !saved {
            self.metrics.evictions_failed = self.metrics.evictions_failed.wrapping_add(1);
        }
        match self.registry.get_mut(ticket.name.as_str()) {
            None => false,
            Some(entry) => {
                if entry.serial != ticket.serial {
                    assert(old(self).registry@.insert(ticket.name@, *entry) =~= old(self).registry@);
                    return false;
                }
                entry.saving = false;
                if !saved {
                    return false;
                }
                match entry.slot {
                    Slot::Cold => false,
                    Slot::Hot(facts) => {
                        if entry.image_generation != ticket.generation || entry.wal_seq != ticket.wal_seq
                            || entry.graph_revision != ticket.graph_revision || entry.config_revision
                            != ticket.config_revision {
                            entry.dirty = true;
                            return false;
                        }
                        entry.stats = facts.stats;
                        entry.dirty = false;
                        entry.slot = Slot::Cold;
                        entry.image_generation = entry.image_generation.wrapping_add(1);
                        entry.counted_bytes = 0;
                        self.metrics.evictions_ok = self.metrics.evictions_ok.wrapping_add(1);
                        true
                    },
                }
            },
        }
    }

    /// Whether a resident passage store should be compacted before it is
    /// dropped. Never on a replica, whose files are not its own.
    pub fn compaction_due(&self, name: &str, serial: u64) -> (res: bool)
        requires
            self.wf(),
        ensures
            res == (self.replica is None && self.live(name@, serial) && match self.registry@[name@].passages {
                Some(store) => store.pending_log_bytes > 0,
                None => false,
            }),
    {
        if self.replica.is_some() {
            return false;
        }
        match self.registry.get(name) {
            None => false,
            Some(entry) => {
                if entry.serial != serial {
                    return false;
                }
                match entry.passages {
                    Some(store) => store.pending_log_bytes > 0,
                    None => false,
                }
            },
        }
    }

    /// Drops everything but the graph that a context holds in memory.
    /// `log_bytes` is what the passage log holds by then.
    pub fn evict_residents(&mut self, name: &str, serial: u64, log_bytes: u64) -> (res: ResidentsDropped)
        requires
            old(self).wf(),
        ensures
            final(self).wf(),
            old(self).nonces_kept(*final(self)),
            *final(self) == (AppState { registry: final(self).registry, ..*old(self) }),
            if old(self).live(name@, serial) {
                let e = old(self).registry@[name@];
                &&& final(self).registry@ == old(self).registry@.insert(
                    name@,
                    without_residents(e, log_bytes, old(self).replica is Some),
                )
                &&& res.freed == (e.passages is Some || e.bm25 is Some || e.passage_vectors is Some || e.vectors is Some)
                &&& res.save_bm25 == (e.bm25 is Some && old(self).replica is None && e.bm25_dirty)
            } else {
                final(self).registry@ == old(self).registry@ && !res.freed && !res.save_bm25
            },
    {
        let replica = self.replica.is_some();
        match self.registry.get_mut(name) {
            None => ResidentsDropped { freed: false, save_bm25: false },
            Some(entry) => {
                if entry.serial != serial {
                    assert(old(self).registry@.insert(name@, *entry) =~= old(self).registry@);
                    return ResidentsDropped { freed: false, save_bm25: false };
                }
                let freed = entry.passages.is_some() || entry.bm25.is_some() || entry.passage_vectors.is_some()
                    || entry.vectors.is_some();
                let save_bm25 = entry.bm25.is_some() && !replica && entry.bm25_dirty;
                if entry.passages.is_some() {
                    entry.passages_wal_bytes = log_bytes;
                }
                if save_bm25 {
                    entry.bm25_dirty = false;
                }
                entry.passages = None;
                entry.bm25 = None;
                entry.passage_vectors = None;
                entry.vectors = None;
                ResidentsDropped { freed, save_bm25 }
            },
        }
    }
}

/// The ticket of an eviction that saves the entry as it stands.
pub open spec fn save_ticket_of(name: Seq<char>, e: Entry, ticket: EvictTicket) -> bool {
    &&& e.slot is Hot
    &&& ticket.name@ == name
    &&& ticket.serial == e.serial
    &&& ticket.generation == e.image_generation
    &&& ticket.wal_seq == e.wal_seq
    &&& ticket.graph_revision == e.graph_revision
    &&& ticket.config_revision == e.config_revision
    &&& e.sidecar_is(e.slot->Hot_0.stats, ticket.sidecar)
}

/// What an eviction saved is all that the entry holds.
pub open spec fn covered(e: Entry, ticket: EvictTicket) -> bool {
    &&& e.slot is Hot
    &&& e.image_generation == ticket.generation
    &&& e.wal_seq == ticket.wal_seq
    &&& e.graph_revision == ticket.graph_revision
    &&& e.config_revision == ticket.config_revision
}

/// The entry after an eviction saved it, or could not.
pub open spec fn after_save(e: Entry, ticket: EvictTicket, saved: bool) -> Entry {
    let ended = Entry { saving: false, ..e };
    if !saved || e.slot is Cold {
        ended
    } else if covered(e, ticket) {
        cooled((Entry { dirty: false, ..ended }), e.slot->Hot_0.stats)
    } else {
        Entry { dirty: true, ..ended }
    }
}

/// The entry whose graph's image is to cover the whole log.
pub open spec fn sealed(e: Entry) -> Entry {
    match e.slot {
        Slot::Hot(facts) => Entry {
            slot: Slot::Hot(GraphFacts { applied_seq: (e.wal_seq - 1) as u64, ..facts }),
            ..e
        },
        Slot::Cold => e,
    }
}

pub open spec fn eviction_counted(m: state::Metrics, ok: bool) -> state::Metrics {
    if ok {
        state::Metrics { evictions_ok: m.evictions_ok.wrapping_add(1), ..m }
    } else {
        state::Metrics { evictions_failed: m.evictions_failed.wrapping_add(1), ..m }
    }
}

/// The entry without its passage store, its indexes and its vectors.
pub open spec fn without_residents(e: Entry, log_bytes: u64, replica: bool) -> Entry {
    Entry {
        passages: None,
        passages_wal_bytes: if e.passages is Some {
            log_bytes
        } else {
            e.passages_wal_bytes
        },
        bm25: None,
        bm25_dirty: if e.bm25 is Some && !replica {
            false
        } else {
            e.bm25_dirty
        },
        passage_vectors: None,
        vectors: None,
        ..e
    }
}

/// A context over its cache ceiling goes before every one that is not,
/// however recently it was used; within each half the less recently used goes
/// first.
pub proof fn over_ceiling_goes_first(state: AppState, picked: Seq<CandidateView>, i: int, j: int)
    requires
        eviction_order(state, picked),
        0 <= i < j < picked.len(),
    ensures
        over_ceiling(state, picked[j]) ==> over_ceiling(state, picked[i]),
        over_ceiling(state, picked[i]) == over_ceiling(state, picked[j]) ==> state.registry@[picked[i].name].last_touch
            <= state.registry@[picked[j].name].last_touch,
{
    let all = all_candidates(state.registry@);
    let keys = eviction_keys(state, all);
    let order = choose|order: Seq<usize>| #[trigger]
        ranking::is_ranking(keys, order) && picked.len() == order.len() && forall|k: int|
            0 <= k < picked.len() ==> #[trigger] picked[k] == all[order[k] as int];
    assert(ranking::ranks_before(keys, order[i] as int, order[j] as int));
    assert(picked[i] == all[order[i] as int] && picked[j] == all[order[j] as int]);
}

/// No pinned context is among the candidates.
pub proof fn pinned_contexts_stay(registry: Map<Seq<char>, Entry>, order: Seq<Seq<char>>, n: nat, k: int)
    requires
        n <= order.len(),
        0 <= k < candidates_upto(registry, order, n).len(),
    ensures
        !registry[candidates_upto(registry, order, n)[k].name].meta.pinned,
        candidates_upto(registry, order, n)[k].bytes > 0,
    decreases n,
{
    if n > 0 {
        let rest = candidates_upto(registry, order, (n - 1) as nat);
        if k < rest.len() {
            pinned_contexts_stay(registry, order, (n - 1) as nat, k);
        }
    }
}

/// A flush that staged an image before the context was evicted will not
/// publish it: the generation has moved.
pub proof fn eviction_outdates_staged_images(e: Entry, ticket: crate::engine::FlushTicket, stats: state::ContextStats, facts: GraphFacts)
    requires
        ticket.generation == e.image_generation,
    ensures
        !crate::engine::current(cooled(e, stats), ticket),
        !crate::engine::current((Entry { slot: Slot::Hot(facts), ..cooled(e, stats) }), ticket),
{
    assert(e.image_generation.wrapping_add(1) != e.image_generation);
}

/// An eviction loses no write: a graph that an operation changed after the
/// eviction took it for saving stays in memory and dirty, however the save
/// came out.
pub proof fn eviction_loses_no_write(
    name: Seq<char>,
    e: Entry,
    ticket: EvictTicket,
    between: Entry,
    landed: usize,
    facts: GraphFacts,
    saved: bool,
)
    requires
        save_ticket_of(name, e, ticket),
        between.graph_revision == e.graph_revision,
        landed > 0,
    ensures
        ({
            let written = crate::write_path::recounted(crate::write_path::after_apply(between, landed, facts));
            &&& after_save(written, ticket, saved).slot == Slot::Hot(facts)
            &&& after_save(written, ticket, saved).dirty
        }),
{
    let g = e.graph_revision;
    let n = landed as u64;
    assert(n > 0);
    assert(g.wrapping_add(n) != g);
}

/// A graph leaves memory on a save only where the save held all of it: the
/// same graph, no operation logged or applied since, and no change of the
/// context's meta.
pub proof fn only_saved_graphs_leave(e: Entry, ticket: EvictTicket, saved: bool)
    requires
        e.slot is Hot,
        after_save(e, ticket, saved).slot is Cold,
    ensures
        saved,
        covered(e, ticket),
{
}

/// No flush publishes over what an eviction is saving: an image that was
/// staged before is discarded, and the entry does not look clean for it.
pub proof fn saving_outranks_flushing(e: Entry, ticket: crate::engine::FlushTicket)
    requires
        e.saving,
    ensures
        !crate::engine::current(e, ticket),
        crate::engine::discarded(e).dirty,
{
}

/// A context's resident bytes are those of its graph and of its four other
/// residents together, at most the largest number.
pub proof fn residents_weigh_together(e: Entry)
    ensures
        ({
            let graph = match e.slot {
                Slot::Hot(facts) => facts.footprint as int,
                Slot::Cold => 0,
            };
            let sum = graph + (match e.vectors {
                Some(n) => n as int,
                None => 0,
            }) + (match e.passages {
                Some(p) => p.footprint as int,
                None => 0,
            }) + (match e.bm25 {
                Some(n) => n as int,
                None => 0,
            }) + (match e.passage_vectors {
                Some(n) => n as int,
                None => 0,
            });
            &&& sum <= u64::MAX ==> resident_bytes(e) == sum
            &&& sum > u64::MAX ==> resident_bytes(e) == u64::MAX
            &&& is_candidate(e) <==> !e.meta.pinned && sum > 0
        }),
{
    state::every_resident_counts_in_memory(e);
}

/// The `k`-th candidate is the context at `at[k]`, by its own serial and
/// bytes.
pub open spec fn candidate_stands(
    registry: Map<Seq<char>, Entry>,
    order: Seq<Seq<char>>,
    found: Seq<CandidateView>,
    at: Seq<int>,
    k: int,
) -> bool {
    found[k] == (CandidateView {
        name: order[at[k]],
        serial: registry[order[at[k]]].serial,
        bytes: resident_bytes(registry[order[at[k]]]),
    })
}

/// The candidates of a sweep are exactly the contexts that are resident and
/// not pinned, each once, in order, each with its own serial and bytes. What
/// is returned is where each stands.
pub proof fn every_unpinned_resident_is_a_candidate(
    registry: Map<Seq<char>, Entry>,
    order: Seq<Seq<char>>,
    n: nat,
) -> (at: Seq<int>)
    requires
        n <= order.len(),
    ensures
        at.len() == candidates_upto(registry, order, n).len(),
        forall|k: int|
            0 <= k < at.len() ==> 0 <= #[trigger] at[k] < n && !registry[order[at[k]]].meta.pinned && resident_bytes(
                registry[order[at[k]]],
            ) > 0,
        forall|k: int, l: int| 0 <= k < l < at.len() ==> #[trigger] at[k] < #[trigger] at[l],
        forall|k: int| 0 <= k < at.len() ==> #[trigger] candidate_stands(registry, order, candidates_upto(registry, order, n), at, k),
        forall|i: int|
            0 <= i < n && !registry[#[trigger] order[i]].meta.pinned && resident_bytes(registry[order[i]]) > 0 ==> at.contains(i),
    decreases n,
{
    if n == 0 {
        Seq::empty()
    } else {
        let m = (n - 1) as nat;
        let before = every_unpinned_resident_is_a_candidate(registry, order, m);
        let was = candidates_upto(registry, order, m);
        let found = candidates_upto(registry, order, n);
        let e = registry[order[m as int]];
        let at = if !e.meta.pinned && resident_bytes(e) > 0 {
            before.push(m as int)
        } else {
            before
        };
        assert forall|k: int| 0 <= k < at.len() implies 0 <= #[trigger] at[k] < n && !registry[order[at[k]]].meta.pinned
            && resident_bytes(registry[order[at[k]]]) > 0 by {
            if k < before.len() {
                assert(at[k] == before[k]);
            }
        }
        assert forall|k: int, l: int| 0 <= k < l < at.len() implies #[trigger] at[k] < #[trigger] at[l] by {
            assert(at[k] == before[k]);
            if l < before.len() {
                assert(at[l] == before[l]);
            }
        }
        assert forall|k: int| 0 <= k < at.len() implies #[trigger] candidate_stands(registry, order, found, at, k) by {
            if k < before.len() {
                assert(candidate_stands(registry, order, was, before, k));
            }
        }
        assert forall|i: int|
            0 <= i < n && !registry[#[trigger] order[i]].meta.pinned && resident_bytes(registry[order[i]]) > 0 implies at.contains(
            i,
        ) by {
            if i == m {
                assert(at[before.len() as int] == i);
            } else {
                assert(before.contains(i));
                let k = choose|k: int| 0 <= k < before.len() && before[k] == i;
                assert(at[k] == i);
            }
        }
        at
    }
}

/// Candidates weigh together what each of them weighs.
pub proof fn candidates_weigh_together(candidates: Seq<CandidateView>, c: CandidateView)
    ensures
        total_bytes(Seq::<CandidateView>::empty()) == 0,
        total_bytes(candidates.push(c)) == total_bytes(candidates) + c.bytes,
{
    assert(candidates.push(c).drop_last() =~= candidates);
}

/// A candidate is over its ceiling exactly where its context declares one and
/// it weighs more; the whole sweep goes through every candidate.
pub proof fn only_declared_ceilings_are_exceeded(state: AppState, c: CandidateView, picked: Seq<CandidateView>)
    ensures
        !state.context_quotas@.contains_key(c.name) ==> !over_ceiling(state, c),
        state.context_quotas@.contains_key(c.name) && state.context_quotas@[c.name].cache_bytes is None ==> !over_ceiling(state, c),
        state.context_quotas@.contains_key(c.name) ==> (state.context_quotas@[c.name].cache_bytes matches Some(ceiling) ==> (
        over_ceiling(state, c) <==> c.bytes > ceiling)),
        eviction_order(state, picked) ==> {
            &&& picked.len() == all_candidates(state.registry@).len()
            &&& all_candidates(state.registry@).contains(c) ==> picked.contains(c)
        },
{
    let all = all_candidates(state.registry@);
    if eviction_order(state, picked) {
        let order = choose|order: Seq<usize>| #[trigger]
            ranking::is_ranking(eviction_keys(state, all), order) && picked.len() == order.len() && forall|k: int|
                0 <= k < picked.len() ==> #[trigger] picked[k] == all[order[k] as int];
        if all.contains(c) {
            let i = choose|i: int| 0 <= i < all.len() && all[i] == c;
            assert(ranking::listed(order, i));
            let a = choose|a: int| 0 <= a < order.len() && #[trigger] order[a] == i;
            assert(picked[a] == c);
        }
    }
}

/// Sixty-three of sixty-four operations pass without a sweep while the
/// estimate fits the budget, and none while it does not.
pub proof fn sweeps_come_in_turn_or_when_full(state: AppState)
    ensures
        state.budget_ops % 64 == 0 ==> !gate_passes(state),
        state.options.cache_bytes <= i64::MAX && state.resident_estimate > state.options.cache_bytes ==> !gate_passes(state),
        state.budget_ops % 64 != 0 && state.resident_estimate <= state.options.cache_bytes ==> gate_passes(state),
        state.options.cache_bytes <= i64::MAX ==> budget_as_i64(state.options.cache_bytes) == state.options.cache_bytes,
        state.options.cache_bytes > i64::MAX ==> budget_as_i64(state.options.cache_bytes) == i64::MAX,
{
}

/// A graph that left memory leaves its counts, a new generation and nothing
/// in the estimate; nothing else of the entry changes.
pub proof fn cooling_leaves_the_counts(e: Entry, stats: state::ContextStats)
    ensures
        cooled(e, stats).slot is Cold,
        cooled(e, stats).stats == stats,
        cooled(e, stats).counted_bytes == 0,
        cooled(e, stats).image_generation == e.image_generation.wrapping_add(1),
        (Entry {
            slot: e.slot,
            stats: e.stats,
            counted_bytes: e.counted_bytes,
            image_generation: e.image_generation,
            ..cooled(e, stats)
        }) == e,
{
}

/// What an eviction saved covers an entry exactly while its graph is loaded
/// and none of its generation, its log and its two revisions has moved since.
pub proof fn saves_cover_until_something_moves(name: Seq<char>, e: Entry, ticket: EvictTicket, now: Entry)
    requires
        save_ticket_of(name, e, ticket),
    ensures
        ticket.name@ == name,
        ticket.serial == e.serial,
        e.slot is Hot,
        covered(now, ticket) <==> {
            &&& now.slot is Hot
            &&& now.image_generation == e.image_generation
            &&& now.wal_seq == e.wal_seq
            &&& now.graph_revision == e.graph_revision
            &&& now.config_revision == e.config_revision
        },
        ticket.sidecar.meta == e.meta,
        ticket.sidecar.usage == e.usage,
        ticket.sidecar.schema_digest == e.schema_digest,
        ticket.sidecar.revision.graph == e.graph_revision,
        ticket.sidecar.revision.passages == e.passage_revision,
        ticket.sidecar.revision.config == e.config_revision,
        e.slot matches Slot::Hot(facts) && ticket.sidecar.stats == facts.stats,
{
}

/// A save that ended leaves no save under way. The graph leaves memory, clean,
/// exactly where it was saved as it stands; where it was saved but has moved
/// on, it stays and is dirty; where it was not saved, it stays as it was.
pub proof fn saves_end(e: Entry, ticket: EvictTicket, saved: bool)
    ensures
        ({
            let after = after_save(e, ticket, saved);
            &&& !after.saving
            &&& !saved || e.slot is Cold ==> (Entry { saving: e.saving, ..after }) == e
            &&& saved && covered(e, ticket) ==> after.slot is Cold && !after.dirty && after.stats == e.slot->Hot_0.stats
                && after.image_generation == e.image_generation.wrapping_add(1) && after.counted_bytes == 0 && (Entry {
                saving: e.saving,
                slot: e.slot,
                dirty: e.dirty,
                stats: e.stats,
                image_generation: e.image_generation,
                counted_bytes: e.counted_bytes,
                ..after
            }) == e
            &&& saved && e.slot is Hot && !covered(e, ticket) ==> after.dirty && (Entry {
                saving: e.saving,
                dirty: e.dirty,
                ..after
            }) == e
        }),
{
}

/// A sealed graph's image covers the log up to its last entry; nothing else
/// changes. An eviction counts by how it came out.
pub proof fn sealing_covers_the_log(e: Entry, m: state::Metrics)
    requires
        e.wal_seq >= 1,
    ensures
        e.slot is Cold ==> sealed(e) == e,
        e.slot matches Slot::Hot(was) ==> (sealed(e).slot matches Slot::Hot(facts) && facts.applied_seq + 1 == e.wal_seq && (
        GraphFacts { applied_seq: was.applied_seq, ..facts }) == was),
        (Entry { slot: e.slot, ..sealed(e) }) == e,
        eviction_counted(m, true).evictions_ok == m.evictions_ok.wrapping_add(1),
        (state::Metrics { evictions_ok: m.evictions_ok, ..eviction_counted(m, true) }) == m,
        eviction_counted(m, false).evictions_failed == m.evictions_failed.wrapping_add(1),
        (state::Metrics { evictions_failed: m.evictions_failed, ..eviction_counted(m, false) }) == m,
{
}

/// An entry that lost its residents holds no passages, no keyword index and
/// no vectors. The log of the passages that left is as it was measured, and
/// an index that left needs no saving, except on a replica. The graph and
/// everything else stay.
pub proof fn residents_leave_together(e: Entry, log_bytes: u64, replica: bool)
    ensures
        ({
            let after = without_residents(e, log_bytes, replica);
            &&& after.passages is None && after.bm25 is None && after.passage_vectors is None && after.vectors is None
            &&& e.passages is Some ==> after.passages_wal_bytes == log_bytes
            &&& e.passages is None ==> after.passages_wal_bytes == e.passages_wal_bytes
            &&& e.bm25 is Some && !replica ==> !after.bm25_dirty
            &&& e.bm25 is None || replica ==> after.bm25_dirty == e.bm25_dirty
            &&& resident_bytes(after) == e.graph_bytes()
            &&& (Entry {
                passages: e.passages,
                passages_wal_bytes: e.passages_wal_bytes,
                bm25: e.bm25,
                bm25_dirty: e.bm25_dirty,
                passage_vectors: e.passage_vectors,
                vectors: e.vectors,
                ..after
            }) == e
        }),
{
}

} // verus!
