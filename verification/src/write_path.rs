//! The write path: quota and log gates in front of a write, and the log's
//! bookkeeping behind it.
//!
//! A batch goes to the log as a whole before any of it is applied. Where
//! fewer operations land than were logged, the log is cut back to what
//! landed; where that fails, the image has to be flushed at once, so that an
//! acknowledged operation can always be replayed.
use crate::quotas;
use crate::quotas::storage_quota_message;
use crate::state;
use crate::state::{AppState, Entry, GraphFacts, InstalledSchema, IoFault, LoadFailure, Metrics, Slot};
use vstd::prelude::*;

verus! {

/// Why a write was not made durable.
pub enum Unpersisted {
    /// The log is at its cap: the image has been failing to flush.
    LogAtCap { wal_bytes: u64, cap: u64 },
    /// The log could not be appended to.
    Append(IoFault),
}

pub enum AccessError {
    NotFound,
    /// The context could not be loaded, or is quarantined after a load that
    /// failed.
    Load(String),
    /// The context is at its declared storage ceiling or above; the text says
    /// so.
    QuotaExceeded(String),
    Unpersisted(Unpersisted),
}

/// A graph that was loaded from its image and its log.
pub struct LoadedGraph {
    pub facts: GraphFacts,
    /// The next log sequence number, from the replay.
    pub wal_seq: u64,
    pub wal_bytes: u64,
    /// The graph revision that the replay reached.
    pub graph_revision: u64,
    /// The installed schema, once it was checked.
    pub schema: Option<InstalledSchema>,
}

/// A batch that was admitted.
pub struct WriteTicket {
    pub name: String,
    pub serial: u64,
    /// How many operations the batch holds.
    pub ops: usize,
    pub first_seq: u64,
    pub len_before: u64,
    /// Whether the batch goes to the log first.
    pub staged: bool,
}

/// What is to be done once a batch was applied.
#[derive(Clone, Copy, PartialEq, Eq, Structural, Debug)]
pub enum AppliedStep {
    /// The log holds exactly what landed.
    Done,
    /// Cut the log back to this length, then report to
    /// [`AppState::log_trimmed`].
    Trim { to: u64 },
}

/// What is to be done once the log was cut back, or could not be.
#[derive(Clone, Copy, PartialEq, Eq, Structural, Debug)]
pub enum TrimStep {
    Done,
    /// Append the operations that landed again, from this sequence number on,
    /// then report to [`AppState::log_reappended`].
    Reappend { first_seq: u64 },
    /// The log no longer says what memory holds: flush the image now.
    FlushNow,
}

/// The entry with its graph loaded. The graph runs with the context's own
/// floor.
pub open spec fn promoted(e: Entry, loaded: LoadedGraph) -> Entry {
    Entry {
        slot: Slot::Hot(GraphFacts { dice_floor: e.meta.dice_floor, ..loaded.facts }),
        wal_seq: if loaded.wal_seq >= 1 {
            loaded.wal_seq
        } else {
            1
        },
        wal_bytes: loaded.wal_bytes,
        graph_revision: if loaded.graph_revision > e.graph_revision {
            loaded.graph_revision
        } else {
            e.graph_revision
        },
        schema: loaded.schema,
        load_failure: None,
        ..e
    }
}

/// The last load failed less than `retry` seconds ago.
pub open spec fn quarantined(e: Entry, now: u64, retry: u64) -> bool {
    state::still_fresh(e.load_failure, now, retry)
}

/// What a use of the context is refused with: a cold context is refused from
/// memory while it is quarantined, and else where its load failed.
pub open spec fn load_refusal(e: Entry, loaded: Result<LoadedGraph, String>, now: u64, retry: u64) -> Option<Seq<char>> {
    if e.slot is Hot {
        None
    } else if quarantined(e, now, retry) {
        Some(state::quarantine_text(e.load_failure->0))
    } else {
        match loaded {
            Ok(_) => None,
            Err(message) => Some(message@),
        }
    }
}

/// The entry once it was to be used: a cold one that is not quarantined takes
/// the loaded graph in, or remembers that the load failed.
pub open spec fn after_load(e: Entry, loaded: Result<LoadedGraph, String>, now: u64, retry: u64) -> Entry {
    if e.slot is Hot || quarantined(e, now, retry) {
        e
    } else {
        match loaded {
            Ok(graph) => promoted(e, graph),
            Err(message) => Entry { load_failure: Some(LoadFailure { message, at: now }), ..e },
        }
    }
}

/// The counters once a context was to be used: a hit where it was loaded,
/// nothing where it is quarantined, else a load.
pub open spec fn load_counted(
    metrics: Metrics,
    e: Entry,
    loaded: Result<LoadedGraph, String>,
    now: u64,
    retry: u64,
) -> Metrics {
    if e.slot is Hot {
        Metrics { cache_hits: metrics.cache_hits.wrapping_add(1), ..metrics }
    } else if quarantined(e, now, retry) {
        metrics
    } else {
        match loaded {
            Ok(_) => Metrics { loads_ok: metrics.loads_ok.wrapping_add(1), ..metrics },
            Err(_) => Metrics { loads_failed: metrics.loads_failed.wrapping_add(1), ..metrics },
        }
    }
}

/// A load that failed is answered from memory, whatever another load would
/// give, until `retry` seconds have passed; nothing changes meanwhile. From
/// then on a good load is taken in and the failure is forgotten.
pub proof fn quarantine_holds_and_heals(
    e: Entry,
    message: String,
    at: u64,
    again: Result<LoadedGraph, String>,
    now: u64,
    retry: u64,
    metrics: Metrics,
)
    requires
        e.slot is Cold,
        !quarantined(e, at, retry),
        at <= now,
    ensures
        ({
            let failed = after_load(e, Err(message), at, retry);
            &&& load_refusal(e, Err(message), at, retry) == Some(message@)
            &&& now - at < retry ==> load_refusal(failed, again, now, retry) == Some(
                "quarantined after a failed load: "@ + message@,
            )
            &&& now - at < retry ==> after_load(failed, again, now, retry) == failed
            &&& now - at < retry ==> load_counted(metrics, failed, again, now, retry) == metrics
            &&& now - at >= retry && again is Ok ==> load_refusal(failed, again, now, retry) is None
            &&& now - at >= retry && again is Ok ==> after_load(failed, again, now, retry) == promoted(
                failed,
                again->Ok_0,
            )
            &&& now - at >= retry && again is Ok ==> after_load(failed, again, now, retry).load_failure is None
        }),
{
}

/// What an entry adds to the resident estimate: its loaded graph, unless it
/// is pinned.
pub open spec fn counts_for(e: Entry) -> u64 {
    if e.meta.pinned {
        0
    } else {
        e.graph_bytes()
    }
}

pub open spec fn recounted(e: Entry) -> Entry {
    Entry { counted_bytes: counts_for(e), ..e }
}

/// The resident estimate once an entry was counted anew.
pub open spec fn estimate_after(estimate: i64, e: Entry) -> i64 {
    estimate.wrapping_add((counts_for(e) as i64).wrapping_sub(e.counted_bytes as i64))
}

/// Counting an entry a second time changes nothing more.
pub proof fn recount_is_absolute(estimate: i64, e: Entry)
    ensures
        recounted(recounted(e)) == recounted(e),
        estimate_after(estimate_after(estimate, e), recounted(e)) == estimate_after(estimate, e),
{
    let c = counts_for(e) as i64;
    assert(counts_for(recounted(e)) == counts_for(e));
    let x = estimate_after(estimate, e);
    assert(c.wrapping_sub(c) == 0);
    assert(x.wrapping_add(0) == x);
}

/// What the context uses and may use, where that is at its ceiling or above.
pub open spec fn quota_excess(state: AppState, name: Seq<char>, e: Entry) -> Option<(u64, u64)> {
    if !state.context_quotas@.contains_key(name) {
        None
    } else {
        match state.context_quotas@[name].storage_bytes {
            None => None,
            Some(ceiling) => if state::capped(e.disk_bytes()) >= ceiling {
                Some((state::capped(e.disk_bytes()), ceiling))
            } else {
                None
            },
        }
    }
}

/// The log is at its cap.
pub open spec fn log_full(state: AppState, e: Entry) -> bool {
    state.options.wal_enabled && state.options.wal_max_bytes > 0 && e.wal_bytes >= state.options.wal_max_bytes
}

/// The entry after a batch went to its log.
pub open spec fn after_append(e: Entry, ops: usize, bytes: u64) -> Entry {
    Entry { wal_bytes: e.wal_bytes.saturating_add(bytes), wal_seq: e.wal_seq.saturating_add(ops as u64), ..e }
}

/// The entry after `landed` operations were applied to its graph.
pub open spec fn after_apply(e: Entry, landed: usize, facts: GraphFacts) -> Entry {
    Entry { dirty: true, slot: Slot::Hot(facts), graph_revision: e.graph_revision.wrapping_add(landed as u64), ..e }
}

/// The entry after its log was cut back to where the batch began.
pub open spec fn after_trim(e: Entry, ticket: WriteTicket) -> Entry {
    Entry { wal_bytes: ticket.len_before, wal_seq: ticket.first_seq, ..e }
}

/// The entry after the operations that landed went to its log again.
pub open spec fn after_reappend(e: Entry, ticket: WriteTicket, landed: usize, bytes: u64) -> Entry {
    Entry {
        wal_bytes: ticket.len_before.saturating_add(bytes),
        wal_seq: ticket.first_seq.saturating_add(landed as u64),
        ..e
    }
}

impl AppState {
    /// Counts an entry's graph anew.
    pub fn recount_entry(&mut self, name: &str)
        requires
            old(self).wf(),
        ensures
            final(self).wf(),
            old(self).nonces_kept(*final(self)),
            *final(self) == (AppState {
                registry: final(self).registry,
                resident_estimate: final(self).resident_estimate,
                ..*old(self)
            }),
            if old(self).registry@.contains_key(name@) {
                let e = old(self).registry@[name@];
                &&& final(self).registry@ == old(self).registry@.insert(name@, recounted(e))
                &&& final(self).resident_estimate == estimate_after(old(self).resident_estimate, e)
            } else {
                final(self).registry@ == old(self).registry@ && final(self).resident_estimate == old(self).resident_estimate
            },
    {
        if let Some(entry) = self.registry.get_mut(name) {
            let now: u64 = if entry.meta.pinned {
                0
            } else {
                entry.graph_footprint()
            };
            let change: i64 = (now as i64).wrapping_sub(entry.counted_bytes as i64);
            entry.counted_bytes = now;
            self.resident_estimate = self.resident_estimate.wrapping_add(change);
        }
    }

    /// Marks a context as just used.
    pub fn touch(&mut self, name: &str)
        requires
            old(self).wf(),
        ensures
            final(self).wf(),
            old(self).nonces_kept(*final(self)),
            *final(self) == (AppState { registry: final(self).registry, clock: final(self).clock, ..*old(self) }),
            final(self).clock == old(self).clock.wrapping_add(1),
            final(self).registry@ == if old(self).registry@.contains_key(name@) {
                old(self).registry@.insert(
                    name@,
                    (Entry { last_touch: final(self).clock, ..old(self).registry@[name@] }),
                )
            } else {
                old(self).registry@
            },
    {
        let now: u64 = self.clock.wrapping_add(1);
        self.clock = now;
        if let Some(entry) = self.registry.get_mut(name) {
            entry.last_touch = now;
        }
    }

    /// Whether a context's graph has to be loaded before it can be used, and
    /// may be: a failed load is not tried again while it is quarantined.
    pub fn needs_load(&self, name: &str, now: u64) -> (res: bool)
        requires
            self.wf(),
        ensures
            res == (self.registry@.contains_key(name@) && self.registry@[name@].slot == Slot::Cold && !quarantined(
                self.registry@[name@],
                now,
                self.options.load_retry,
            )),
    {
        match self.registry.get(name) {
            Some(entry) => match entry.slot {
                Slot::Cold => state::quarantine_notice(&entry.load_failure, now, self.options.load_retry).is_none(),
                Slot::Hot(_) => false,
            },
            None => false,
        }
    }

    /// Takes a loaded graph in, unless the context is loaded already: that is
    /// a hit. A load that failed is remembered and reported, and while it is
    /// younger than the retry window the context is refused from memory.
    pub fn ensure_hot(&mut self, name: &str, loaded: Result<LoadedGraph, String>, now: u64) -> (res: Result<
        (),
        AccessError,
    >)
        requires
            old(self).wf(),
        ensures
            final(self).wf(),
            old(self).nonces_kept(*final(self)),
            *final(self) == (AppState { registry: final(self).registry, metrics: final(self).metrics, ..*old(self) }),
            ({
                let e = old(self).registry@[name@];
                let retry = old(self).options.load_retry;
                if !old(self).registry@.contains_key(name@) {
                    &&& res == Err::<(), _>(AccessError::NotFound)
                    &&& final(self).registry@ == old(self).registry@
                    &&& final(self).metrics == old(self).metrics
                } else {
                    &&& match load_refusal(e, loaded, now, retry) {
                        Some(text) => res matches Err(AccessError::Load(message)) && message@ == text,
                        None => res is Ok,
                    }
                    &&& final(self).registry@ == old(self).registry@.insert(name@, after_load(e, loaded, now, retry))
                    &&& final(self).metrics == load_counted(old(self).metrics, e, loaded, now, retry)
                }
            }),
    {
        let retry: u64 = self.options.load_retry;
        match self.registry.get_mut(name) {
            None => Err(AccessError::NotFound),
            Some(entry) => {
                match entry.slot {
                    Slot::Hot(_) => {
                        self.metrics.cache_hits = self.metrics.cache_hits.wrapping_add(1);
                        return Ok(());
                    },
                    Slot::Cold => {},
                }
                if let Some(text) = state::quarantine_notice(&entry.load_failure, now, retry) {
                    return Err(AccessError::Load(text));
                }
                match loaded {
                    Ok(graph) => {
                        entry.slot = Slot::Hot(
                            GraphFacts {
                                footprint: graph.facts.footprint,
                                stats: graph.facts.stats,
                                applied_seq: graph.facts.applied_seq,
                                dice_floor: entry.meta.dice_floor,
                            },
                        );
                        entry.wal_seq = if graph.wal_seq >= 1 {
                            graph.wal_seq
                        } else {
                            1
                        };
                        entry.wal_bytes = graph.wal_bytes;
                        if graph.graph_revision > entry.graph_revision {
                            entry.graph_revision = graph.graph_revision;
                        }
                        entry.schema = graph.schema;
                        entry.load_failure = None;
                        self.metrics.loads_ok = self.metrics.loads_ok.wrapping_add(1);
                        Ok(())
                    },
                    Err(message) => {
                        entry.load_failure = Some(LoadFailure { message: message.clone(), at: now });
                        self.metrics.loads_failed = self.metrics.loads_failed.wrapping_add(1);
                        Err(AccessError::Load(message))
                    },
                }
            },
        }
    }

    /// What the context uses and may use, where that is at its ceiling or
    /// above: a line that the next write would cross admits no more growth.
    pub fn storage_quota_excess(&self, name: &str, entry: &Entry) -> (res: Option<(u64, u64)>)
        requires
            self.wf(),
        ensures
            res == quota_excess(*self, name@, *entry),
    {
        match self.context_quotas.get(name) {
            None => None,
            Some(quota) => match quota.storage_bytes {
                None => None,
                Some(ceiling) => {
                    let used: u64 = entry.disk_total();
                    if used >= ceiling {
                        Some((used, ceiling))
                    } else {
                        None
                    }
                },
            },
        }
    }

    /// [`AppState::storage_quota_excess`] by name. `None` for an unknown
    /// context too: creation is never gated by a quota.
    pub fn storage_quota_refusal(&self, name: &str) -> (res: Option<(u64, u64)>)
        requires
            self.wf(),
        ensures
            res == if self.registry@.contains_key(name@) {
                quota_excess(*self, name@, self.registry@[name@])
            } else {
                None
            },
    {
        match self.registry.get(name) {
            Some(entry) => self.storage_quota_excess(name, entry),
            None => None,
        }
    }

    /// Judges a batch of `ops` operations. The context has to be there and
    /// loaded; a batch that grows it has to be under its storage ceiling; and
    /// the log has to be under its cap. The batch then goes to the log, if
    /// the ticket says so, and the outcome to [`AppState::log_appended`];
    /// else it is applied at once.
    pub fn logged_write(
        &mut self,
        name: &str,
        ops: usize,
        grows: bool,
        loaded: Result<LoadedGraph, String>,
        now: u64,
    ) -> (res: Result<WriteTicket, AccessError>)
        requires
            old(self).wf(),
        ensures
            final(self).wf(),
            old(self).nonces_kept(*final(self)),
            write_gate(*old(self), *final(self), name@, ops, grows, loaded, now, res),
    {
        let ghost start = *self;
        match self.ensure_hot(name, loaded, now) {
            Ok(_) => {},
            Err(error) => {
                return Err(error);
            },
        }
        self.recount_entry(name);
        let excess;
        let full;
        let serial: u64;
        let first_seq: u64;
        let len_before: u64;
        match self.registry.get(name) {
            None => {
                return Err(AccessError::NotFound);
            },
            Some(entry) => {
                excess = self.storage_quota_excess(name, entry);
                full = self.options.wal_enabled && self.options.wal_max_bytes > 0 && entry.wal_bytes
                    >= self.options.wal_max_bytes;
                serial = entry.serial;
                first_seq = entry.wal_seq;
                len_before = entry.wal_bytes;
            },
        }
        proof {
            let h = after_load(start.registry@[name@], loaded, now, start.options.load_retry);
            assert(self.registry@ =~= start.registry@.insert(name@, recounted(h)));
        }
        if grows {
            if let Some((used, ceiling)) = excess {
                self.metrics.storage_quota_refusals = self.metrics.storage_quota_refusals.wrapping_add(1);
                return Err(AccessError::QuotaExceeded(storage_quota_message(name, used, ceiling)));
            }
        }
        if full {
            return Err(
                AccessError::Unpersisted(
                    Unpersisted::LogAtCap { wal_bytes: len_before, cap: self.options.wal_max_bytes },
                ),
            );
        }
        Ok(
            WriteTicket {
                name: name.to_owned(),
                serial,
                ops,
                first_seq,
                len_before,
                staged: self.options.wal_enabled,
            },
        )
    }

    /// Notes that a batch went to the log, with how many bytes it took, or
    /// that it could not. Where it could not, the write is refused and the
    /// entry is marked dirty: the next flush carries off what may have leaked
    /// into the log.
    pub fn log_appended(&mut self, ticket: &WriteTicket, appended: Result<u64, IoFault>) -> (res: Result<(), AccessError>)
        requires
            old(self).wf(),
        ensures
            final(self).wf(),
            old(self).nonces_kept(*final(self)),
            *final(self) == (AppState { registry: final(self).registry, metrics: final(self).metrics, ..*old(self) }),
            final(self).metrics == match appended {
                Ok(_) => Metrics {
                    wal_appends_ok: old(self).metrics.wal_appends_ok.wrapping_add(1),
                    ..old(self).metrics
                },
                Err(_) => Metrics {
                    wal_appends_failed: old(self).metrics.wal_appends_failed.wrapping_add(1),
                    ..old(self).metrics
                },
            },
            match appended {
                Ok(_) => res is Ok,
                Err(fault) => res == Err::<(), _>(AccessError::Unpersisted(Unpersisted::Append(fault))),
            },
            final(self).registry@ == if old(self).live(ticket.name@, ticket.serial) {
                let e = old(self).registry@[ticket.name@];
                old(self).registry@.insert(
                    ticket.name@,
                    match appended {
                        Ok(bytes) => after_append(e, ticket.ops, bytes),
                        Err(_) => Entry { dirty: true, ..e },
                    },
                )
            } else {
                old(self).registry@
            },
    {
        match appended {
            Ok(_) => {
                self.metrics.wal_appends_ok = self.metrics.wal_appends_ok.wrapping_add(1);
            },
            Err(_) => {
                self.metrics.wal_appends_failed = self.metrics.wal_appends_failed.wrapping_add(1);
            },
        }
        if let Some(entry) = self.registry.get_mut(ticket.name.as_str()) {
            if entry.serial == ticket.serial {
                match appended {
                    Ok(bytes) => {
                        entry.wal_bytes = entry.wal_bytes.saturating_add(bytes);
                        entry.wal_seq = entry.wal_seq.saturating_add(ticket.ops as u64);
                    },
                    Err(_) => {
                        entry.dirty = true;
                    },
                }
            } else {
                assert(old(self).registry@.insert(ticket.name@, *entry) =~= old(self).registry@);
            }
        }
        match appended {
            Ok(_) => Ok(()),
            Err(fault) => Err(AccessError::Unpersisted(Unpersisted::Append(fault))),
        }
    }

    /// Notes that `landed` of a batch's operations were applied and what the
    /// graph weighs now. Where the log holds more than landed, it is to be
    /// cut back.
    pub fn write_applied(&mut self, ticket: &WriteTicket, landed: usize, facts: GraphFacts) -> (res: AppliedStep)
        requires
            old(self).wf(),
        ensures
            final(self).wf(),
            old(self).nonces_kept(*final(self)),
            *final(self) == (AppState {
                registry: final(self).registry,
                resident_estimate: final(self).resident_estimate,
                ..*old(self)
            }),
            if old(self).live(ticket.name@, ticket.serial) {
                let e = after_apply(old(self).registry@[ticket.name@], landed, facts);
                &&& final(self).registry@ == old(self).registry@.insert(ticket.name@, recounted(e))
                &&& final(self).resident_estimate == estimate_after(old(self).resident_estimate, e)
            } else {
                final(self).registry@ == old(self).registry@ && final(self).resident_estimate == old(self).resident_estimate
            },
            res == if ticket.staged && landed < ticket.ops {
                AppliedStep::Trim { to: ticket.len_before }
            } else {
                AppliedStep::Done
            },
    {
        let step = if ticket.staged && landed < ticket.ops {
            AppliedStep::Trim { to: ticket.len_before }
        } else {
            AppliedStep::Done
        };
        match self.registry.get_mut(ticket.name.as_str()) {
            None => step,
            Some(entry) => {
                if entry.serial != ticket.serial {
                    assert(old(self).registry@.insert(ticket.name@, *entry) =~= old(self).registry@);
                    return step;
                }
                entry.dirty = true;
                entry.slot = Slot::Hot(facts);
                entry.graph_revision = entry.graph_revision.wrapping_add(landed as u64);
                self.recount_entry(ticket.name.as_str());
                proof {
                    let e = after_apply(old(self).registry@[ticket.name@], landed, facts);
                    assert(self.registry@ =~= old(self).registry@.insert(ticket.name@, recounted(e)));
                }
                step
            },
        }
    }

    /// Drops a graph that an operation left half changed: the next use
    /// rebuilds it from the image and the log.
    pub fn write_panicked(&mut self, ticket: &WriteTicket)
        requires
            old(self).wf(),
        ensures
            final(self).wf(),
            old(self).nonces_kept(*final(self)),
            *final(self) == (AppState {
                registry: final(self).registry,
                resident_estimate: final(self).resident_estimate,
                ..*old(self)
            }),
            if old(self).live(ticket.name@, ticket.serial) {
                let e = Entry { slot: Slot::Cold, ..old(self).registry@[ticket.name@] };
                &&& final(self).registry@ == old(self).registry@.insert(ticket.name@, recounted(e))
                &&& final(self).resident_estimate == estimate_after(old(self).resident_estimate, e)
            } else {
                final(self).registry@ == old(self).registry@ && final(self).resident_estimate == old(self).resident_estimate
            },
    {
        if let Some(entry) = self.registry.get_mut(ticket.name.as_str()) {
            if entry.serial == ticket.serial {
                entry.slot = Slot::Cold;
                self.recount_entry(ticket.name.as_str());
                proof {
                    let e = Entry { slot: Slot::Cold, ..old(self).registry@[ticket.name@] };
                    assert(self.registry@ =~= old(self).registry@.insert(ticket.name@, recounted(e)));
                }
            } else {
                assert(old(self).registry@.insert(ticket.name@, *entry) =~= old(self).registry@);
            }
        }
    }

    /// Notes that the log was cut back to where the batch began, or could not
    /// be.
    pub fn log_trimmed(&mut self, ticket: &WriteTicket, landed: usize, trimmed: bool) -> (res: TrimStep)
        requires
            old(self).wf(),
            ticket.first_seq >= 1,
        ensures
            final(self).wf(),
            old(self).nonces_kept(*final(self)),
            *final(self) == (AppState { registry: final(self).registry, ..*old(self) }),
            res == if !trimmed {
                TrimStep::FlushNow
            } else if landed > 0 {
                TrimStep::Reappend { first_seq: ticket.first_seq }
            } else {
                TrimStep::Done
            },
            final(self).registry@ == if trimmed && landed == 0 && old(self).live(ticket.name@, ticket.serial) {
                old(self).registry@.insert(ticket.name@, after_trim(old(self).registry@[ticket.name@], *ticket))
            } else {
                old(self).registry@
            },
    {
        if !trimmed {
            return TrimStep::FlushNow;
        }
        if landed > 0 {
            return TrimStep::Reappend { first_seq: ticket.first_seq };
        }
        if let Some(entry) = self.registry.get_mut(ticket.name.as_str()) {
            if entry.serial == ticket.serial {
                entry.wal_bytes = ticket.len_before;
                entry.wal_seq = ticket.first_seq;
            } else {
                assert(old(self).registry@.insert(ticket.name@, *entry) =~= old(self).registry@);
            }
        }
        TrimStep::Done
    }

    /// Notes that the operations that landed went to the log again, with how
    /// many bytes they took, or could not.
    pub fn log_reappended(&mut self, ticket: &WriteTicket, landed: usize, appended: Result<u64, IoFault>) -> (res: TrimStep)
        requires
            old(self).wf(),
            ticket.first_seq >= 1,
        ensures
            final(self).wf(),
            old(self).nonces_kept(*final(self)),
            *final(self) == (AppState { registry: final(self).registry, ..*old(self) }),
            res == match appended {
                Ok(_) => TrimStep::Done,
                Err(_) => TrimStep::FlushNow,
            },
            final(self).registry@ == if old(self).live(ticket.name@, ticket.serial) {
                let e = old(self).registry@[ticket.name@];
                old(self).registry@.insert(
                    ticket.name@,
                    match appended {
                        Ok(bytes) => after_reappend(e, *ticket, landed, bytes),
                        Err(_) => after_trim(e, *ticket),
                    },
                )
            } else {
                old(self).registry@
            },
    {
        if let Some(entry) = self.registry.get_mut(ticket.name.as_str()) {
            if entry.serial == ticket.serial {
                match appended {
                    Ok(bytes) => {
                        entry.wal_bytes = ticket.len_before.saturating_add(bytes);
                        entry.wal_seq = ticket.first_seq.saturating_add(landed as u64);
                    },
                    Err(_) => {
                        entry.wal_bytes = ticket.len_before;
                        entry.wal_seq = ticket.first_seq;
                    },
                }
            } else {
                assert(old(self).registry@.insert(ticket.name@, *entry) =~= old(self).registry@);
            }
        }
        match appended {
            Ok(_) => TrimStep::Done,
            Err(_) => TrimStep::FlushNow,
        }
    }
}

/// What [`AppState::logged_write`] answers and leaves.
pub open spec fn write_gate(
    was: AppState,
    now: AppState,
    name: Seq<char>,
    ops: usize,
    grows: bool,
    loaded: Result<LoadedGraph, String>,
    at: u64,
    res: Result<WriteTicket, AccessError>,
) -> bool {
    let e = was.registry@[name];
    let h = after_load(e, loaded, at, was.options.load_retry);
    let counted = load_counted(was.metrics, e, loaded, at, was.options.load_retry);
    if !was.registry@.contains_key(name) {
        res == Err::<WriteTicket, _>(AccessError::NotFound) && now == (AppState { registry: now.registry, ..was })
            && now.registry@ == was.registry@
    } else if let Some(text) = load_refusal(e, loaded, at, was.options.load_retry) {
        &&& res matches Err(AccessError::Load(message)) && message@ == text
        &&& now == (AppState { registry: now.registry, metrics: counted, ..was })
        &&& now.registry@ == was.registry@.insert(name, h)
    } else {
        &&& now == (AppState {
            registry: now.registry,
            resident_estimate: estimate_after(was.resident_estimate, h),
            metrics: now.metrics,
            ..was
        })
        &&& now.registry@ == was.registry@.insert(name, recounted(h))
        &&& if grows && quota_excess(was, name, h) is Some {
            let (used, ceiling) = quota_excess(was, name, h)->0;
            &&& res matches Err(AccessError::QuotaExceeded(message)) && message@ == quotas::quota_message_of(
                name,
                used,
                ceiling,
            )
            &&& now.metrics == (Metrics {
                storage_quota_refusals: was.metrics.storage_quota_refusals.wrapping_add(1),
                ..counted
            })
        } else {
            &&& now.metrics == counted
            &&& if log_full(was, h) {
                res == Err::<WriteTicket, _>(
                    AccessError::Unpersisted(
                        Unpersisted::LogAtCap { wal_bytes: h.wal_bytes, cap: was.options.wal_max_bytes },
                    ),
                )
            } else {
                res matches Ok(ticket) && ticket.name@ == name && ticket.serial == h.serial && ticket.ops == ops
                    && ticket.first_seq == h.wal_seq && ticket.len_before == h.wal_bytes && ticket.staged
                    == was.options.wal_enabled
            }
        }
    }
}

/// How a batch ran, from the log append on.
pub struct WriteRun {
    pub ops: usize,
    pub landed: usize,
    pub appended_bytes: u64,
    pub facts: GraphFacts,
    /// Whether the log could be cut back, where it had to be.
    pub trimmed: bool,
    /// Whether the operations that landed went to the log again, where they
    /// had to, and in how many bytes.
    pub reappended: Option<u64>,
}

/// The entry after a logged batch ran, and whether the image has to be
/// flushed at once.
pub open spec fn after_run(e: Entry, ticket: WriteTicket, run: WriteRun) -> (Entry, bool) {
    let applied = recounted(after_apply(after_append(e, run.ops, run.appended_bytes), run.landed, run.facts));
    if run.landed >= run.ops {
        (applied, false)
    } else if !run.trimmed {
        (applied, true)
    } else if run.landed == 0 {
        (after_trim(applied, ticket), false)
    } else {
        match run.reappended {
            Some(bytes) => (after_reappend(applied, ticket, run.landed, bytes), false),
            None => (after_trim(applied, ticket), true),
        }
    }
}

/// The sequence numbers that a batch takes.
pub open spec fn batch_seqs(first: u64, n: nat) -> Seq<int> {
    Seq::new(n, |i: int| first + i)
}

/// The sequence numbers that the log holds after a logged batch ran.
pub open spec fn log_after_run(log: Seq<int>, ticket: WriteTicket, run: WriteRun) -> Seq<int> {
    if run.landed >= run.ops || !run.trimmed {
        log + batch_seqs(ticket.first_seq, run.ops as nat)
    } else if run.landed > 0 && run.reappended is Some {
        log + batch_seqs(ticket.first_seq, run.landed as nat)
    } else {
        log
    }
}

/// An acknowledged operation can be replayed: unless the image is to be
/// flushed at once, the log holds exactly the operations that landed behind
/// what it held before, and the next sequence number follows them.
pub proof fn acknowledged_is_replayable(e: Entry, ticket: WriteTicket, run: WriteRun, log: Seq<int>)
    requires
        ticket.first_seq == e.wal_seq,
        ticket.len_before == e.wal_bytes,
        run.landed <= run.ops,
        e.wal_seq + run.ops <= u64::MAX,
    ensures
        after_run(e, ticket, run).0.dirty,
        after_run(e, ticket, run).0.graph_revision == e.graph_revision.wrapping_add(run.landed as u64),
        !after_run(e, ticket, run).1 ==> {
            &&& log_after_run(log, ticket, run) == log + batch_seqs(ticket.first_seq, run.landed as nat)
            &&& after_run(e, ticket, run).0.wal_seq == ticket.first_seq + run.landed
        },
{
    if run.landed == 0 {
        assert(log + batch_seqs(ticket.first_seq, 0) =~= log);
    }
}

/// Where the log could not be cut back, a flush at once covers all that it
/// holds: the untried operations will never be replayed.
pub proof fn flush_covers_the_untried_tail(e: Entry, ticket: WriteTicket, run: WriteRun)
    requires
        e.wf(),
        ticket.first_seq == e.wal_seq,
        run.landed < run.ops,
        !run.trimmed,
        e.wal_seq + run.ops <= u64::MAX,
    ensures
        after_run(e, ticket, run).1,
        crate::engine::claimed(after_run(e, ticket, run).0).slot->Hot_0.applied_seq == ticket.first_seq + run.ops - 1
            || after_run(e, ticket, run).0.flushing,
{
}

/// A context that has reached its storage ceiling grows no more: it is
/// refused exactly where its image, passages, sidecars, log and passage log
/// together come to the ceiling, so certainly where any one of them does. A
/// context without a declared ceiling is never refused.
pub proof fn a_context_at_its_ceiling_is_full(state: AppState, name: Seq<char>, e: Entry)
    ensures
        ({
            let used = e.disk.image_bytes + e.disk.passages_bytes + e.disk.sidecar_bytes + e.wal_bytes + (match e.passages {
                Some(p) => p.pending_log_bytes,
                None => e.passages_wal_bytes,
            });
            let ceiling = if state.context_quotas@.contains_key(name) {
                state.context_quotas@[name].storage_bytes
            } else {
                None
            };
            &&& quota_excess(state, name, e) is Some <==> (ceiling is Some && used >= ceiling->0)
            &&& quota_excess(state, name, e) matches Some((said, allowed)) ==> {
                &&& allowed == ceiling->0
                &&& said == used || (said == u64::MAX && used > u64::MAX)
            }
            &&& ceiling is Some && e.disk.image_bytes >= ceiling->0 ==> quota_excess(state, name, e) is Some
            &&& ceiling is Some && e.disk.passages_bytes >= ceiling->0 ==> quota_excess(state, name, e) is Some
            &&& ceiling is Some && e.disk.sidecar_bytes >= ceiling->0 ==> quota_excess(state, name, e) is Some
            &&& ceiling is Some && e.wal_bytes >= ceiling->0 ==> quota_excess(state, name, e) is Some
            &&& ceiling is Some && e.passages is Some && (e.passages->0).pending_log_bytes >= ceiling->0 ==> quota_excess(
                state,
                name,
                e,
            ) is Some
            &&& ceiling is Some && e.passages is None && e.passages_wal_bytes >= ceiling->0 ==> quota_excess(
                state,
                name,
                e,
            ) is Some
        }),
{
}

/// A loaded graph is taken in as it was read, but for the floor, which is the
/// context's own. Its sequence numbers start at one, the graph revision does
/// not go back, and an earlier failure is forgotten. Nothing else of the
/// entry changes.
pub proof fn loading_takes_the_graph_in(e: Entry, loaded: LoadedGraph)
    ensures
        ({
            let after = promoted(e, loaded);
            &&& after.slot matches Slot::Hot(facts) && facts.dice_floor == e.meta.dice_floor && facts.footprint
                == loaded.facts.footprint && facts.stats == loaded.facts.stats && facts.applied_seq == loaded.facts.applied_seq
            &&& after.wal_seq >= 1
            &&& loaded.wal_seq >= 1 ==> after.wal_seq == loaded.wal_seq
            &&& after.wal_bytes == loaded.wal_bytes
            &&& after.graph_revision >= e.graph_revision && after.graph_revision >= loaded.graph_revision
            &&& after.graph_revision == e.graph_revision || after.graph_revision == loaded.graph_revision
            &&& after.schema == loaded.schema
            &&& after.load_failure is None
            &&& (Entry {
                slot: e.slot,
                wal_seq: e.wal_seq,
                wal_bytes: e.wal_bytes,
                graph_revision: e.graph_revision,
                schema: e.schema,
                load_failure: e.load_failure,
                ..after
            }) == e
        }),
{
}

/// A use of a loaded context is a hit and changes nothing of it. A use of a
/// cold one whose last load failed within the last `retry` seconds is refused
/// and counts nothing. Any other use of a cold one is a load, which counts by
/// how it came out and leaves either the graph or the failure.
pub proof fn uses_count_as_hits_or_loads(
    m: Metrics,
    e: Entry,
    loaded: Result<LoadedGraph, String>,
    now: u64,
    retry: u64,
)
    ensures
        ({
            let counted = load_counted(m, e, loaded, now, retry);
            let after = after_load(e, loaded, now, retry);
            let refused = load_refusal(e, loaded, now, retry);
            let fresh = e.load_failure is Some && (if now > (e.load_failure->0).at {
                now - (e.load_failure->0).at < retry
            } else {
                retry > 0
            });
            &&& e.slot is Hot ==> refused is None && after == e && counted.cache_hits == m.cache_hits.wrapping_add(1)
                && counted.loads_ok == m.loads_ok && counted.loads_failed == m.loads_failed
            &&& e.slot is Cold ==> counted.cache_hits == m.cache_hits
            &&& e.slot is Cold && fresh ==> refused == Some(
                "quarantined after a failed load: "@ + (e.load_failure->0).message@,
            ) && after == e && counted == m
            &&& e.slot is Cold && !fresh && loaded is Ok ==> refused is None && after == promoted(e, loaded->Ok_0)
                && counted.loads_ok == m.loads_ok.wrapping_add(1) && counted.loads_failed == m.loads_failed
            &&& e.slot is Cold && !fresh && loaded is Err ==> {
                &&& refused == Some(loaded->Err_0@)
                &&& after.load_failure == Some(LoadFailure { message: loaded->Err_0, at: now })
                &&& (Entry { load_failure: e.load_failure, ..after }) == e
                &&& counted.loads_failed == m.loads_failed.wrapping_add(1)
                &&& counted.loads_ok == m.loads_ok
            }
            &&& (Metrics {
                cache_hits: m.cache_hits,
                loads_ok: m.loads_ok,
                loads_failed: m.loads_failed,
                ..counted
            }) == m
        }),
{
}

/// A context adds the bytes of its loaded graph to the estimate: none where
/// it is cold or pinned. Counting it anew moves the estimate by the
/// difference to what it added before, and changes only what it adds.
pub proof fn only_loaded_graphs_are_counted(estimate: i64, e: Entry)
    ensures
        e.meta.pinned || e.slot is Cold ==> counts_for(e) == 0,
        !e.meta.pinned ==> (e.slot matches Slot::Hot(facts) ==> counts_for(e) == facts.footprint),
        recounted(e).counted_bytes == counts_for(e),
        (Entry { counted_bytes: e.counted_bytes, ..recounted(e) }) == e,
        counts_for(e) <= i64::MAX && e.counted_bytes <= i64::MAX && i64::MIN <= estimate + counts_for(e) - e.counted_bytes
            <= i64::MAX ==> estimate_after(estimate, e) == estimate + counts_for(e) - e.counted_bytes,
{
}

/// A log is full exactly where there is a log, it has a cap, and it has come
/// to that cap.
pub proof fn logs_are_full_at_their_cap(state: AppState, e: Entry)
    ensures
        !state.options.wal_enabled ==> !log_full(state, e),
        state.options.wal_max_bytes == 0 ==> !log_full(state, e),
        e.wal_bytes < state.options.wal_max_bytes ==> !log_full(state, e),
        state.options.wal_enabled && 0 < state.options.wal_max_bytes <= e.wal_bytes ==> log_full(state, e),
{
}

/// A batch that went to the log makes it longer by its bytes and takes one
/// sequence number for each operation; operations that landed move the graph
/// revision by their count and leave the entry dirty with the new graph. A
/// log that was cut back ends where the batch began; one that was written
/// again holds what landed. Nothing else of the entry changes at any of
/// these steps.
pub proof fn batches_move_the_log_by_their_size(
    e: Entry,
    ticket: WriteTicket,
    ops: usize,
    landed: usize,
    bytes: u64,
    facts: GraphFacts,
)
    ensures
        e.wal_bytes + bytes <= u64::MAX ==> after_append(e, ops, bytes).wal_bytes == e.wal_bytes + bytes,
        e.wal_bytes + bytes > u64::MAX ==> after_append(e, ops, bytes).wal_bytes == u64::MAX,
        e.wal_seq + ops <= u64::MAX ==> after_append(e, ops, bytes).wal_seq == e.wal_seq + ops,
        (Entry { wal_bytes: e.wal_bytes, wal_seq: e.wal_seq, ..after_append(e, ops, bytes) }) == e,
        after_apply(e, landed, facts).dirty,
        after_apply(e, landed, facts).slot == Slot::Hot(facts),
        e.graph_revision + landed <= u64::MAX ==> after_apply(e, landed, facts).graph_revision == e.graph_revision + landed,
        (Entry {
            dirty: e.dirty,
            slot: e.slot,
            graph_revision: e.graph_revision,
            ..after_apply(e, landed, facts)
        }) == e,
        after_trim(e, ticket).wal_bytes == ticket.len_before,
        after_trim(e, ticket).wal_seq == ticket.first_seq,
        (Entry { wal_bytes: e.wal_bytes, wal_seq: e.wal_seq, ..after_trim(e, ticket) }) == e,
        ticket.len_before + bytes <= u64::MAX ==> after_reappend(e, ticket, landed, bytes).wal_bytes == ticket.len_before
            + bytes,
        ticket.first_seq + landed <= u64::MAX ==> after_reappend(e, ticket, landed, bytes).wal_seq == ticket.first_seq
            + landed,
        (Entry { wal_bytes: e.wal_bytes, wal_seq: e.wal_seq, ..after_reappend(e, ticket, landed, bytes) }) == e,
{
}

/// After a batch the log holds what is to be replayed: all of it where all
/// landed, or where it could not be cut back; only what landed where that
/// went to the log again; else nothing of it. The image has to be flushed at
/// once exactly where the log does not say what landed.
pub proof fn logs_hold_what_landed(e: Entry, ticket: WriteTicket, run: WriteRun)
    requires
        e.wal_bytes + run.appended_bytes <= u64::MAX,
        e.wal_seq + run.ops <= u64::MAX,
        e.graph_revision + run.landed <= u64::MAX,
        run.reappended matches Some(bytes) ==> ticket.len_before + bytes <= u64::MAX,
        ticket.first_seq + run.landed <= u64::MAX,
    ensures
        ({
            let (after, flush) = after_run(e, ticket, run);
            let whole = run.landed >= run.ops;
            let again = !whole && run.trimmed && run.landed > 0 && run.reappended is Some;
            &&& after.dirty && after.slot == Slot::Hot(run.facts)
            &&& after.graph_revision == e.graph_revision + run.landed
            &&& after.counted_bytes == if e.meta.pinned {
                0
            } else {
                run.facts.footprint
            }
            &&& whole || !run.trimmed ==> after.wal_bytes == e.wal_bytes + run.appended_bytes && after.wal_seq == e.wal_seq
                + run.ops
            &&& again ==> after.wal_bytes == ticket.len_before + run.reappended->0 && after.wal_seq == ticket.first_seq
                + run.landed
            &&& !whole && run.trimmed && !again ==> after.wal_bytes == ticket.len_before && after.wal_seq == ticket.first_seq
            &&& flush <==> !whole && (!run.trimmed || (run.landed > 0 && run.reappended is None))
            &&& (Entry {
                dirty: e.dirty,
                slot: e.slot,
                graph_revision: e.graph_revision,
                counted_bytes: e.counted_bytes,
                wal_bytes: e.wal_bytes,
                wal_seq: e.wal_seq,
                ..after
            }) == e
        }),
{
}

/// A write to a context that is loaded is admitted unless it grows a context
/// at its ceiling or the log is at its cap; one to a context that is not
/// registered is not found. What is admitted starts where the log stands.
pub proof fn writes_are_admitted_unless_full(
    was: AppState,
    now: AppState,
    name: Seq<char>,
    ops: usize,
    grows: bool,
    loaded: Result<LoadedGraph, String>,
    at: u64,
    res: Result<WriteTicket, AccessError>,
)
    requires
        write_gate(was, now, name, ops, grows, loaded, at, res),
    ensures
        !was.registry@.contains_key(name) <==> res == Err::<WriteTicket, _>(AccessError::NotFound),
        was.registry@.contains_key(name) && was.registry@[name].slot is Hot ==> {
            let e = was.registry@[name];
            let over = grows && quota_excess(was, name, e) is Some;
            let full = was.options.wal_enabled && 0 < was.options.wal_max_bytes <= e.wal_bytes;
            &&& over <==> (res matches Err(AccessError::QuotaExceeded(_)))
            &&& !over && full <==> (res matches Err(AccessError::Unpersisted(_)))
            &&& !over && !full <==> res is Ok
            &&& over ==> now.metrics.storage_quota_refusals == was.metrics.storage_quota_refusals.wrapping_add(1)
            &&& !over ==> now.metrics.storage_quota_refusals == was.metrics.storage_quota_refusals
            &&& now.metrics.cache_hits == was.metrics.cache_hits.wrapping_add(1)
            &&& res matches Ok(ticket) ==> ticket.name@ == name && ticket.serial == e.serial && ticket.ops == ops
                && ticket.first_seq == e.wal_seq && ticket.len_before == e.wal_bytes && ticket.staged
                == was.options.wal_enabled
        },
{
}

} // verus!
