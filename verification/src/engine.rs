//! Flushing: what a flush claims, when it may publish, and what it leaves.
//!
//! A flush works in three steps. The claim takes a consistent snapshot; the
//! caller stages the image without holding anything up; publication looks
//! again whether the snapshot still is what the context holds. A write that
//! lands in between marks the entry dirty again, so nothing is lost.
use crate::names;
use crate::picking;
use crate::state;
use crate::state::{AppState, ContextMeta, ContextStats, Entry, GraphFacts, MetaFile, Slot};
use vstd::prelude::*;

verus! {

/// A registered context at one moment: its name and its registration.
pub struct Handle {
    pub name: String,
    pub serial: u64,
}

/// A flush under way: what its image covers and whose image it is.
pub struct FlushTicket {
    pub name: String,
    pub serial: u64,
    /// The last log sequence number that the image covers.
    pub watermark: u64,
    pub generation: u64,
    pub stats: ContextStats,
    pub meta: ContextMeta,
}

/// What a flush has to do once its image is staged.
pub enum FlushStep {
    /// Staging failed; the next tick retries.
    Failed,
    /// The context is gone, cold, holds another graph by now, or is being
    /// saved by an eviction: remove the staged bytes.
    Discard,
    /// Write this sidecar, then move the staged image into place, and report
    /// to [`AppState::flush_published`].
    Publish(MetaFile),
}

/// How a flush ended.
#[derive(Clone, Copy, PartialEq, Eq, Structural, Debug)]
pub struct FlushDone {
    pub published: bool,
    /// The image covers the whole log, which can go.
    pub truncate: bool,
}

/// What became of a log that was to be truncated.
#[derive(Clone, Copy, PartialEq, Eq, Structural, Debug)]
pub enum WalReset {
    /// The shipper has not read it yet; it stays.
    Deferred,
    Done,
    Failed,
}

/// The entry after a flush claimed it. A graph that is not loaded leaves
/// nothing to write.
pub open spec fn claimed(e: Entry) -> Entry {
    match e.slot {
        Slot::Hot(facts) => Entry {
            dirty: false,
            flushing: true,
            slot: Slot::Hot(GraphFacts { applied_seq: (e.wal_seq - 1) as u64, ..facts }),
            ..e
        },
        Slot::Cold => Entry { dirty: false, ..e },
    }
}

/// A flush may claim the entry.
pub open spec fn claimable(e: Entry) -> bool {
    e.dirty && !e.flushing
}

/// The ticket of a flush that claimed the entry.
pub open spec fn ticket_of(name: Seq<char>, e: Entry, ticket: FlushTicket) -> bool {
    &&& e.slot is Hot
    &&& ticket.name@ == name
    &&& ticket.serial == e.serial
    &&& ticket.watermark == e.wal_seq - 1
    &&& ticket.generation == e.image_generation
    &&& ticket.stats == e.slot->Hot_0.stats
    &&& ticket.meta == e.meta
}

/// The staged image still is the entry's own, and no eviction is saving a
/// later one.
pub open spec fn current(e: Entry, ticket: FlushTicket) -> bool {
    e.slot is Hot && e.image_generation == ticket.generation && !e.saving
}

/// The entry after a staged image was discarded. What an eviction is still
/// saving stays dirty until it has reported.
pub open spec fn discarded(e: Entry) -> Entry {
    Entry { flushing: false, dirty: e.dirty || e.saving, ..e }
}

/// The entry after its image was published, or failed to be.
pub open spec fn after_publication(e: Entry, ticket: FlushTicket, published: bool) -> Entry {
    if published {
        Entry { stats: ticket.stats, flushing: false, ..e }
    } else {
        Entry { dirty: true, usage_dirty: true, flushing: false, ..e }
    }
}

impl AppState {
    /// Every registered context, in name order: what one sweep of the flusher
    /// visits. For each, the caller runs [`AppState::flush_bm25`] and
    /// [`AppState::flush_entry`]; [`flushed_names`] then says what was
    /// flushed.
    pub fn flush_dirty(&self) -> (res: Vec<Handle>)
        requires
            self.wf(),
        ensures
            res@.map_values(|h: Handle| h.name@) == names::in_order(self.registry@.dom()),
            forall|i: int| 0 <= i < res.len() ==> self.live((#[trigger] res@[i]).name@, res@[i].serial),
    {
        let mut res: Vec<Handle> = Vec::new();
        let n: usize = self.registry.len();
        let ghost order = self.registry.order();
        let mut i: usize = 0;
        while i < n
            invariant
                self.wf(),
                order == self.registry.order(),
                n == order.len(),
                i <= n,
                res@.map_values(|h: Handle| h.name@) == order.take(i as int),
                forall|j: int| 0 <= j < i ==> self.live((#[trigger] res@[j]).name@, res@[j].serial),
            decreases n - i,
        {
            let name = self.registry.key_at(i).clone();
            let serial: u64 = self.registry.value_at(i).serial;
            let ghost was = res@.map_values(|h: Handle| h.name@);
            res.push(Handle { name, serial });
            assert(res@.map_values(|h: Handle| h.name@) =~= was.push(name@));
            assert(was.push(name@) =~= order.take(i + 1));
            i = i + 1;
        }
        proof {
            assert(order.take(n as int) =~= order);
            self.registry.order_is_domain();
        }
        res
    }

    /// Claims a dirty keyword index for saving; true if there is one to save.
    /// A replica saves none.
    pub fn flush_bm25(&mut self, name: &str, serial: u64) -> (save: bool)
        requires
            old(self).wf(),
        ensures
            final(self).wf(),
            old(self).nonces_kept(*final(self)),
            *final(self) == (AppState { registry: final(self).registry, ..*old(self) }),
            if old(self).replica is None && old(self).live(name@, serial) && old(self).registry@[name@].bm25_dirty {
                let e = old(self).registry@[name@];
                final(self).registry@ == old(self).registry@.insert(name@, (Entry { bm25_dirty: false, ..e })) && save == (
                e.bm25 is Some)
            } else {
                final(self).registry@ == old(self).registry@ && !save
            },
    {
        if self.replica.is_some() {
            return false;
        }
        match self.registry.get_mut(name) {
            Some(entry) => {
                if entry.serial != serial || !entry.bm25_dirty {
                    assert(old(self).registry@.insert(name@, *entry) =~= old(self).registry@);
                    return false;
                }
                entry.bm25_dirty = false;
                entry.bm25.is_some()
            },
            None => false,
        }
    }

    /// Ends the save of a keyword index: one that failed is retried.
    pub fn bm25_saved(&mut self, name: &str, serial: u64, saved: bool)
        requires
            old(self).wf(),
        ensures
            final(self).wf(),
            old(self).nonces_kept(*final(self)),
            *final(self) == (AppState { registry: final(self).registry, ..*old(self) }),
            if !saved && old(self).live(name@, serial) {
                final(self).registry@ == old(self).registry@.insert(
                    name@,
                    (Entry { bm25_dirty: true, ..old(self).registry@[name@] }),
                )
            } else {
                final(self).registry@ == old(self).registry@
            },
    {
        if saved {
            return;
        }
        if let Some(entry) = self.registry.get_mut(name) {
            if entry.serial == serial {
                entry.bm25_dirty = true;
            } else {
                assert(old(self).registry@.insert(name@, *entry) =~= old(self).registry@);
            }
        }
    }

    /// Claims one entry for a flush. A clean entry, or one that another flush
    /// holds, is left alone; so is a handle that is no longer live.
    pub fn flush_entry(&mut self, name: &str, serial: u64) -> (res: Option<FlushTicket>)
        requires
            old(self).wf(),
        ensures
            final(self).wf(),
            old(self).nonces_kept(*final(self)),
            *final(self) == (AppState { registry: final(self).registry, ..*old(self) }),
            if old(self).live(name@, serial) && claimable(old(self).registry@[name@]) {
                let e = old(self).registry@[name@];
                &&& final(self).registry@ == old(self).registry@.insert(name@, claimed(e))
                &&& res is Some == (e.slot is Hot)
                &&& res matches Some(ticket) ==> ticket_of(name@, e, ticket)
            } else {
                final(self).registry@ == old(self).registry@ && res is None
            },
    {
        match self.registry.get_mut(name) {
            Some(entry) => {
                if entry.serial != serial || !entry.dirty || entry.flushing {
                    assert(old(self).registry@.insert(name@, *entry) =~= old(self).registry@);
                    return None;
                }
                entry.dirty = false;
                let watermark: u64 = entry.wal_seq - 1;
                match entry.slot {
                    Slot::Hot(facts) => {
                        entry.flushing = true;
                        entry.slot = Slot::Hot(
                            GraphFacts {
                                footprint: facts.footprint,
                                stats: facts.stats,
                                applied_seq: watermark,
                                dice_floor: facts.dice_floor,
                            },
                        );
                        Some(
                            FlushTicket {
                                name: name.to_owned(),
                                serial,
                                watermark,
                                generation: entry.image_generation,
                                stats: facts.stats,
                                meta: entry.meta.copy(),
                            },
                        )
                    },
                    Slot::Cold => None,
                }
            },
            None => None,
        }
    }

    /// Goes on with a flush whose image was staged, or could not be: then it
    /// counts as failed.
    pub fn flush_staged(&mut self, ticket: &FlushTicket, staged: bool) -> (res: FlushStep)
        requires
            old(self).wf(),
        ensures
            final(self).wf(),
            old(self).nonces_kept(*final(self)),
            ({
                let name = ticket.name@;
                let live = old(self).live(name, ticket.serial);
                let e = old(self).registry@[name];
                if !staged {
                    &&& res is Failed
                    &&& *final(self) == (AppState {
                        registry: final(self).registry,
                        metrics: final(self).metrics,
                        ..*old(self)
                    })
                    &&& old(self).metrics.flush_recorded(name, None, final(self).metrics)
                    &&& final(self).registry@ == if live {
                        old(self).registry@.insert(name, (Entry { dirty: true, flushing: false, ..e }))
                    } else {
                        old(self).registry@
                    }
                } else {
                    &&& *final(self) == (AppState { registry: final(self).registry, ..*old(self) })
                    &&& if !live {
                        res is Discard && final(self).registry@ == old(self).registry@
                    } else if !current(e, *ticket) {
                        res is Discard && final(self).registry@ == old(self).registry@.insert(
                            name,
                            discarded(e),
                        )
                    } else {
                        &&& res == FlushStep::Publish(
                            MetaFile {
                                meta: ticket.meta,
                                stats: ticket.stats,
                                usage: e.usage,
                                revision: e.spec_revision(),
                                schema_digest: e.schema_digest,
                            },
                        )
                        &&& final(self).registry@ == old(self).registry@.insert(name, (Entry { usage_dirty: false, ..e }))
                    }
                }
            }),
    {
        if !staged {
            self.metrics.record_flush(ticket.name.as_str(), None);
        }
        match self.registry.get_mut(ticket.name.as_str()) {
            None => {
                if staged {
                    FlushStep::Discard
                } else {
                    FlushStep::Failed
                }
            },
            Some(entry) => {
                if entry.serial != ticket.serial {
                    assert(old(self).registry@.insert(ticket.name@, *entry) =~= old(self).registry@);
                    return if staged {
                        FlushStep::Discard
                    } else {
                        FlushStep::Failed
                    };
                }
                if !staged {
                    entry.dirty = true;
                    entry.flushing = false;
                    return FlushStep::Failed;
                }
                let hot = match entry.slot {
                    Slot::Hot(_) => true,
                    Slot::Cold => false,
                };
                if !hot || entry.image_generation != ticket.generation || entry.saving {
                    entry.flushing = false;
                    entry.dirty = entry.dirty || entry.saving;
                    return FlushStep::Discard;
                }
                entry.usage_dirty = false;
                let file = MetaFile {
                    meta: ticket.meta.copy(),
                    stats: ticket.stats,
                    usage: entry.usage,
                    revision: entry.revision_snapshot(),
                    schema_digest: state::copy_text(&entry.schema_digest),
                };
                FlushStep::Publish(file)
            },
        }
    }

    /// Ends a flush whose sidecar and image went into place at `now`, or did
    /// not.
    pub fn flush_published(&mut self, ticket: &FlushTicket, published: bool, now: u64) -> (res: FlushDone)
        requires
            old(self).wf(),
        ensures
            final(self).wf(),
            old(self).nonces_kept(*final(self)),
            *final(self) == (AppState { registry: final(self).registry, metrics: final(self).metrics, ..*old(self) }),
            old(self).metrics.flush_recorded(
                ticket.name@,
                if published {
                    Some(now)
                } else {
                    None
                },
                final(self).metrics,
            ),
            res.published == published,
            if old(self).live(ticket.name@, ticket.serial) {
                let e = old(self).registry@[ticket.name@];
                &&& final(self).registry@ == old(self).registry@.insert(
                    ticket.name@,
                    after_publication(e, *ticket, published),
                )
                &&& res.truncate == (published && e.wal_seq - 1 == ticket.watermark)
            } else {
                final(self).registry@ == old(self).registry@ && !res.truncate
            },
    {
        let through = if published {
            Some(now)
        } else {
            None
        };
        self.metrics.record_flush(ticket.name.as_str(), through);
        match self.registry.get_mut(ticket.name.as_str()) {
            None => FlushDone { published, truncate: false },
            Some(entry) => {
                if entry.serial != ticket.serial {
                    assert(old(self).registry@.insert(ticket.name@, *entry) =~= old(self).registry@);
                    return FlushDone { published, truncate: false };
                }
                let covers = entry.wal_seq - 1 == ticket.watermark;
                entry.flushing = false;
                if published {
                    entry.stats = ticket.stats;
                } else {
                    entry.dirty = true;
                    entry.usage_dirty = true;
                }
                FlushDone { published, truncate: published && covers }
            },
        }
    }

    /// Notes what became of a log that an image covers. A log that could not
    /// be truncated is harmless: its records are covered.
    pub fn truncate_wal(&mut self, name: &str, serial: u64, reset: WalReset)
        requires
            old(self).wf(),
        ensures
            final(self).wf(),
            old(self).nonces_kept(*final(self)),
            *final(self) == (AppState { registry: final(self).registry, ..*old(self) }),
            if reset == WalReset::Done && old(self).live(name@, serial) {
                final(self).registry@ == old(self).registry@.insert(
                    name@,
                    (Entry { wal_bytes: 0, ..old(self).registry@[name@] }),
                )
            } else {
                final(self).registry@ == old(self).registry@
            },
    {
        if reset != WalReset::Done {
            return;
        }
        if let Some(entry) = self.registry.get_mut(name) {
            if entry.serial == serial {
                entry.wal_bytes = 0;
            } else {
                assert(old(self).registry@.insert(name@, *entry) =~= old(self).registry@);
            }
        }
    }
}

/// The names of the visited contexts that were flushed, in visiting order.
pub open spec fn published_names(visited: Seq<Seq<char>>, published: Seq<bool>, n: nat) -> Seq<Seq<char>>
    decreases n,
{
    if n == 0 {
        Seq::empty()
    } else {
        let rest = published_names(visited, published, (n - 1) as nat);
        if n <= published.len() && published[n - 1] {
            rest.push(visited[n - 1])
        } else {
            rest
        }
    }
}

/// The names of the visited contexts that were flushed, in visiting order. A
/// context that nothing was noted of was not.
pub fn flushed_names(visited: &Vec<Handle>, published: &Vec<bool>) -> (res: Vec<String>)
    ensures
        names::views(res@) == published_names(
            visited@.map_values(|h: Handle| h.name@),
            published@,
            visited@.len(),
        ),
{
    let ghost all = visited@.map_values(|h: Handle| h.name@);
    let mut res: Vec<String> = Vec::new();
    let mut i: usize = 0;
    assert(names::views(res@) =~= Seq::empty());
    while i < visited.len()
        invariant
            i <= visited.len(),
            all == visited@.map_values(|h: Handle| h.name@),
            names::views(res@) == published_names(all, published@, i as nat),
        decreases visited.len() - i,
    {
        if i < published.len() && published[i] {
            let ghost was = res@;
            res.push(visited[i].name.clone());
            assert(names::views(res@) =~= names::views(was).push(all[i as int]));
        }
        i = i + 1;
    }
    res
}

/// What a write does to an entry's graph, its log and its counters keeps it
/// dirty: the write is not lost to a flush that claimed the entry before it.
pub proof fn racing_write_stays_dirty(claim: Entry, written: Entry, ticket: FlushTicket, published: bool)
    requires
        claimable(claim),
        written.dirty,
        written.serial == claimed(claim).serial,
    ensures
        after_publication(written, ticket, published).dirty,
{
}

/// Between the claim and the end of a flush the entry says that a flush is
/// under way, so an eviction does not take it for clean.
pub proof fn claimed_entry_never_looks_clean(e: Entry)
    requires
        claimable(e),
        e.slot is Hot,
    ensures
        claimed(e).flushing,
        !claimable(claimed(e)),
{
}

/// An entry that nothing touched since its claim is clean after its flush,
/// and the log that its image covers can go.
pub proof fn quiet_flush_ends_clean(name: Seq<char>, e: Entry, ticket: FlushTicket)
    requires
        e.wf(),
        claimable(e),
        !e.saving,
        ticket_of(name, e, ticket),
    ensures
        current(claimed(e), ticket),
        !after_publication(claimed(e), ticket, true).dirty,
        !after_publication(claimed(e), ticket, true).flushing,
        claimed(e).wal_seq - 1 == ticket.watermark,
        claimed(e).slot->Hot_0.applied_seq == ticket.watermark,
{
}

/// A flush that failed leaves the entry to be claimed again.
pub proof fn failed_flush_is_retried(e: Entry, ticket: FlushTicket)
    ensures
        claimable(after_publication(e, ticket, false)),
{
}

/// A flush may claim exactly what is dirty and not being flushed. The claim
/// takes the mark off; a loaded graph is then being flushed, with an image
/// that covers the log up to its last entry. Nothing else of the entry
/// changes.
pub proof fn claims_cover_the_log(e: Entry)
    requires
        e.wal_seq >= 1,
    ensures
        claimable(e) <==> e.dirty && !e.flushing,
        !claimed(e).dirty,
        e.slot is Cold ==> claimed(e).slot is Cold && claimed(e).flushing == e.flushing,
        e.slot matches Slot::Hot(was) ==> {
            &&& claimed(e).flushing
            &&& claimed(e).slot matches Slot::Hot(facts) && facts.applied_seq + 1 == e.wal_seq && (GraphFacts {
                applied_seq: was.applied_seq,
                ..facts
            }) == was
        },
        (Entry { dirty: e.dirty, flushing: e.flushing, slot: e.slot, ..claimed(e) }) == e,
{
}

/// A staged image may be published exactly while the graph it was taken from
/// is still loaded, unreplaced, and not being saved by an eviction.
pub proof fn images_are_published_while_current(name: Seq<char>, e: Entry, ticket: FlushTicket, now: Entry)
    requires
        ticket_of(name, e, ticket),
    ensures
        ticket.name@ == name,
        ticket.serial == e.serial,
        ticket.watermark + 1 == e.wal_seq,
        ticket.meta == e.meta,
        e.slot matches Slot::Hot(facts) && ticket.stats == facts.stats,
        current(now, ticket) <==> now.slot is Hot && now.image_generation == e.image_generation && !now.saving,
{
}

/// A discarded image ends the flush; the entry is dirty where it was or where
/// an eviction is still saving it. A published one leaves the counts that it
/// was taken with; one that failed leaves the entry to be flushed again.
/// Nothing else of the entry changes.
pub proof fn flushes_end(e: Entry, ticket: FlushTicket)
    ensures
        !discarded(e).flushing,
        discarded(e).dirty <==> e.dirty || e.saving,
        (Entry { flushing: e.flushing, dirty: e.dirty, ..discarded(e) }) == e,
        !after_publication(e, ticket, true).flushing,
        after_publication(e, ticket, true).stats == ticket.stats,
        (Entry { flushing: e.flushing, stats: e.stats, ..after_publication(e, ticket, true) }) == e,
        !after_publication(e, ticket, false).flushing,
        after_publication(e, ticket, false).dirty,
        after_publication(e, ticket, false).usage_dirty,
        (Entry {
            flushing: e.flushing,
            dirty: e.dirty,
            usage_dirty: e.usage_dirty,
            ..after_publication(e, ticket, false)
        }) == e,
{
}

/// Of the contexts that were visited those are named that were flushed, every
/// one, in visiting order. What is returned is where each stands.
pub proof fn every_flushed_context_is_named(visited: Seq<Seq<char>>, published: Seq<bool>, n: nat) -> (at: Seq<int>)
    requires
        n <= visited.len(),
    ensures
        picking::picks(
            visited,
            n,
            |i: int| i < published.len() && published[i],
            published_names(visited, published, n),
            at,
        ),
    decreases n,
{
    let p = |i: int| i < published.len() && published[i];
    if n == 0 {
        Seq::empty()
    } else {
        let m = (n - 1) as nat;
        let before = every_flushed_context_is_named(visited, published, m);
        picking::picks_on(
            visited,
            m,
            p,
            published_names(visited, published, m),
            before,
            published_names(visited, published, n),
        );
        picking::and_next(before, m, p(m as int))
    }
}

} // verus!
