//! A context's life: creating, deleting and renaming it.
//!
//! A name that an operation under way has reserved counts as taken, so that
//! no new generation of files can appear under the tail of another's
//! removals.
use crate::residency;
use crate::state;
use crate::state::{
    AppState, ContextMeta, ContextStats, ContextUsage, Entry, GraphFacts, IoFault, MetaFile, Slot,
};
use crate::retrieval_cache::ContextRevision;
use crate::text::same;
use crate::write_path;
use vstd::prelude::*;

verus! {

pub enum CreateError {
    InvalidName,
    AlreadyExists,
    Io(IoFault),
}

pub enum DeleteError {
    /// The name is an end of a rename under way; nothing was touched.
    MidRename,
    Io(IoFault),
}

pub enum RenameContextError {
    InvalidName,
    NotFound,
    AlreadyExists,
    Busy,
    Io(IoFault),
}

/// What a rename has to do.
#[derive(Clone, Copy, PartialEq, Eq, Structural, Debug)]
pub enum RenameStart {
    /// The names are the same: nothing.
    Nothing,
    /// Both names are reserved; the registration to rename is this one.
    Begin { serial: u64 },
}

/// What a rename saves of a context before its old name goes.
pub struct DrainTicket {
    pub name: String,
    pub serial: u64,
    /// Which loaded graph is saved.
    pub generation: u64,
    /// The next log sequence number when it was taken for saving.
    pub wal_seq: u64,
    pub graph_revision: u64,
    pub config_revision: u64,
    /// The sidecar to write beside the image; `None` for a graph that is not
    /// loaded, whose files are what it is.
    pub sidecar: Option<MetaFile>,
}

/// What became of the old name of a rename.
pub enum Detachment {
    /// The registration that was drained is no longer there.
    Gone,
    /// It changed since: drain it again.
    MovedOn,
    /// It is out of the registry; these were its usage counters.
    Detached(ContextUsage),
}

/// The ticket of a rename that saves the entry as it stands.
pub open spec fn drain_ticket_of(name: Seq<char>, e: Entry, ticket: DrainTicket) -> bool {
    &&& ticket.name@ == name
    &&& ticket.serial == e.serial
    &&& ticket.generation == e.image_generation
    &&& ticket.wal_seq == e.wal_seq
    &&& ticket.graph_revision == e.graph_revision
    &&& ticket.config_revision == e.config_revision
    &&& match ticket.sidecar {
        Some(file) => e.slot is Hot && e.sidecar_is(e.slot->Hot_0.stats, file),
        None => e.slot is Cold,
    }
}

/// What a rename saved is all that the entry holds.
pub open spec fn drained(e: Entry, ticket: DrainTicket) -> bool {
    &&& e.slot is Hot == ticket.sidecar is Some
    &&& e.image_generation == ticket.generation
    &&& e.wal_seq == ticket.wal_seq
    &&& e.graph_revision == ticket.graph_revision
    &&& e.config_revision == ticket.config_revision
}

/// A rename loses no write: what was drained can be detached as it stands,
/// but not once an operation was applied to its graph or a batch went to its
/// log, nor once a graph was taken in that was not loaded when it was
/// drained.
pub proof fn rename_loses_no_write(
    name: Seq<char>,
    e: Entry,
    ticket: DrainTicket,
    between: Entry,
    landed: usize,
    facts: GraphFacts,
    bytes: u64,
    graph: write_path::LoadedGraph,
)
    requires
        drain_ticket_of(name, e, ticket),
        between.graph_revision == e.graph_revision,
        between.wal_seq == e.wal_seq < u64::MAX,
        landed > 0,
    ensures
        drained(residency::sealed(e), ticket),
        !drained(write_path::recounted(write_path::after_apply(between, landed, facts)), ticket),
        !drained(write_path::after_append(between, landed, bytes), ticket),
        e.slot is Cold ==> !drained(write_path::promoted(e, graph), ticket),
{
    let g = e.graph_revision;
    let n = landed as u64;
    assert(n > 0);
    assert(g.wrapping_add(n) != g);
}

/// Where a rename stands: what is to be done next, or how it ended.
pub enum RenameStage {
    /// Fetch the family from the bucket and stop it from being fetched
    /// again.
    Hydrate,
    /// Write the durable marker.
    Mark,
    /// Clear what is stale at the destination.
    Sweep,
    /// Save the entry's whole state under the old name.
    Drain,
    /// Move the files.
    Move,
    /// Register the context under the new name and rewrite the groups.
    Register,
    /// Take the marker back, for this error.
    Retract(IoFault),
    Done,
    /// Nothing durable is left of the attempt.
    RolledBack(IoFault),
    /// The marker survives; only a start can finish the rename.
    Stuck(IoFault),
}

/// The next stage of a rename, once its current one came out.
pub open spec fn stage_after(stage: RenameStage, outcome: Result<(), IoFault>) -> RenameStage {
    match stage {
        RenameStage::Hydrate => match outcome {
            Ok(_) => RenameStage::Mark,
            Err(fault) => RenameStage::RolledBack(fault),
        },
        RenameStage::Mark => match outcome {
            Ok(_) => RenameStage::Sweep,
            Err(fault) => RenameStage::RolledBack(fault),
        },
        RenameStage::Sweep => match outcome {
            Ok(_) => RenameStage::Drain,
            Err(fault) => RenameStage::Retract(fault),
        },
        RenameStage::Drain => match outcome {
            Ok(_) => RenameStage::Move,
            Err(fault) => RenameStage::Retract(fault),
        },
        RenameStage::Move => match outcome {
            Ok(_) => RenameStage::Register,
            Err(fault) => RenameStage::Stuck(fault),
        },
        RenameStage::Register => RenameStage::Done,
        RenameStage::Retract(error) => match outcome {
            Ok(_) => RenameStage::RolledBack(error),
            Err(fault) => if fault.not_found {
                RenameStage::RolledBack(error)
            } else {
                RenameStage::Stuck(error)
            },
        },
        RenameStage::Done => stage,
        RenameStage::RolledBack(_) => stage,
        RenameStage::Stuck(_) => stage,
    }
}

/// The next stage of a rename, once its current one came out.
pub fn rename_context_locked(stage: RenameStage, outcome: Result<(), IoFault>) -> (res: RenameStage)
    ensures
        res == stage_after(stage, outcome),
{
    match stage {
        RenameStage::Hydrate => match outcome {
            Ok(_) => RenameStage::Mark,
            Err(fault) => RenameStage::RolledBack(fault),
        },
        RenameStage::Mark => match outcome {
            Ok(_) => RenameStage::Sweep,
            Err(fault) => RenameStage::RolledBack(fault),
        },
        RenameStage::Sweep => match outcome {
            Ok(_) => RenameStage::Drain,
            Err(fault) => RenameStage::Retract(fault),
        },
        RenameStage::Drain => match outcome {
            Ok(_) => RenameStage::Move,
            Err(fault) => RenameStage::Retract(fault),
        },
        RenameStage::Move => match outcome {
            Ok(_) => RenameStage::Register,
            Err(fault) => RenameStage::Stuck(fault),
        },
        RenameStage::Register => RenameStage::Done,
        RenameStage::Retract(error) => rollback_rename(error, outcome),
        RenameStage::Done => RenameStage::Done,
        RenameStage::RolledBack(error) => RenameStage::RolledBack(error),
        RenameStage::Stuck(error) => RenameStage::Stuck(error),
    }
}

/// How a rollback ends: rolled back once the marker is gone, or was not
/// there; stuck where it will not go.
pub fn rollback_rename(error: IoFault, retracted: Result<(), IoFault>) -> (res: RenameStage)
    ensures
        res == stage_after(RenameStage::Retract(error), retracted),
{
    match retracted {
        Ok(_) => RenameStage::RolledBack(error),
        Err(fault) => if fault.not_found {
            RenameStage::RolledBack(error)
        } else {
            RenameStage::Stuck(error)
        },
    }
}

/// Whether the stop that [`RenameStage::Hydrate`] put on fetching the family
/// is to be lifted: exactly where nothing is left of the attempt.
pub fn undo_rename_veto(stage: &RenameStage) -> (res: bool)
    ensures
        res == (*stage is RolledBack),
{
    match stage {
        RenameStage::RolledBack(_) => true,
        _ => false,
    }
}

/// A rename ended.
pub open spec fn ended(stage: RenameStage) -> bool {
    stage is Done || stage is RolledBack || stage is Stuck
}

/// Before the drain a failure rolls back unless the marker will not go; from
/// the move on it can only get stuck.
pub proof fn point_of_no_return(stage: RenameStage, fault: IoFault)
    ensures
        (stage is Hydrate || stage is Mark) ==> stage_after(stage, Err(fault)) is RolledBack,
        (stage is Sweep || stage is Drain) ==> stage_after(stage, Err(fault)) is Retract,
        stage is Move ==> stage_after(stage, Err(fault)) is Stuck,
        ended(stage) ==> stage_after(stage, Err(fault)) == stage,
{
}

/// The stages that a rename runs through when everything goes well.
pub proof fn smooth_rename()
    ensures
        stage_after(RenameStage::Hydrate, Ok(())) is Mark,
        stage_after(RenameStage::Mark, Ok(())) is Sweep,
        stage_after(RenameStage::Sweep, Ok(())) is Drain,
        stage_after(RenameStage::Drain, Ok(())) is Move,
        stage_after(RenameStage::Move, Ok(())) is Register,
        stage_after(RenameStage::Register, Ok(())) is Done,
{
}

/// A new context's entry.
pub open spec fn is_fresh_entry(e: Entry, serial: u64, identity: u64, meta: ContextMeta, stats: ContextStats, footprint: u64) -> bool {
    e == (Entry {
        serial,
        meta,
        stats,
        slot: Slot::Hot(GraphFacts { footprint, stats, applied_seq: 0, dice_floor: meta.dice_floor }),
        wal_seq: 1,
        wal_bytes: 0,
        passages_wal_bytes: 0,
        graph_revision: 0,
        config_revision: 0,
        passage_revision: 0,
        image_generation: 0,
        counted_bytes: 0,
        cache_identity: identity,
        load_failure: None,
        passages_load_failure: None,
        schema_digest: None,
        schema: None,
        usage: state::zero_usage(),
        usage_dirty: false,
        dirty: false,
        flushing: false,
        saving: false,
        last_touch: 0,
        disk: state::ContextDiskUsage { image_bytes: 0, passages_bytes: 0, sidecar_bytes: 0 },
        passages: None,
        passages_embed_dirty: false,
        bm25: None,
        bm25_dirty: false,
        passage_vectors: None,
        vectors: None,
    })
}

/// The larger of two numbers.
pub open spec fn larger(a: u64, b: u64) -> u64 {
    if a >= b {
        a
    } else {
        b
    }
}

fn max(a: u64, b: u64) -> (res: u64)
    ensures
        res == larger(a, b),
{
    if a >= b {
        a
    } else {
        b
    }
}

/// Two snapshots of the same counters, field by field the larger.
pub open spec fn merged_usage(a: ContextUsage, b: ContextUsage) -> ContextUsage {
    ContextUsage {
        reads: larger(a.reads, b.reads),
        empty_reads: larger(a.empty_reads, b.empty_reads),
        writes: larger(a.writes, b.writes),
        last_read_epoch: larger(a.last_read_epoch, b.last_read_epoch),
        last_write_epoch: larger(a.last_write_epoch, b.last_write_epoch),
    }
}

/// A rename loses no counted read or write.
pub proof fn merging_loses_no_usage(a: ContextUsage, b: ContextUsage)
    ensures
        merged_usage(a, b).reads >= a.reads && merged_usage(a, b).reads >= b.reads,
        merged_usage(a, b).empty_reads >= a.empty_reads && merged_usage(a, b).empty_reads >= b.empty_reads,
        merged_usage(a, b).writes >= a.writes && merged_usage(a, b).writes >= b.writes,
        merged_usage(a, b) == merged_usage(b, a),
        merged_usage(a, a) == a,
{
}

impl AppState {
    /// The name is free for a new context: neither registered nor reserved.
    pub open spec fn is_free(&self, name: Seq<char>) -> bool {
        &&& !self.registry@.contains_key(name)
        &&& !self.pending.deletes@.contains(name)
        &&& !self.pending.renames@.contains(name)
        &&& !self.pending.creates@.contains(name)
    }

    /// Reserves a name for a new context. An empty name has no file stem and
    /// is refused. The caller clears the slate, writes the files and reports
    /// to [`AppState::settle_created`].
    pub fn create(&mut self, name: &str) -> (res: Result<(), CreateError>)
        requires
            old(self).wf(),
        ensures
            final(self).wf(),
            old(self).nonces_kept(*final(self)),
            *final(self) == (AppState { pending: final(self).pending, ..*old(self) }),
            final(self).pending.deletes@ == old(self).pending.deletes@,
            final(self).pending.renames@ == old(self).pending.renames@,
            if name@.len() == 0 {
                res == Err::<(), _>(CreateError::InvalidName) && final(self).pending.creates@ == old(self).pending.creates@
            } else if !old(self).is_free(name@) {
                res == Err::<(), _>(CreateError::AlreadyExists) && final(self).pending.creates@ == old(self).pending.creates@
            } else {
                res is Ok && final(self).pending.creates@ == old(self).pending.creates@.insert(name@)
            },
    {
        if name.is_empty() {
            return Err(CreateError::InvalidName);
        }
        if self.registry.contains(name) || self.pending.deletes.contains(name) || self.pending.renames.contains(name)
            || self.pending.creates.contains(name) {
            return Err(CreateError::AlreadyExists);
        }
        self.pending.creates.insert(name.to_owned());
        Ok(())
    }

    /// Ends a creation: the reservation goes, and where the files landed the
    /// context is there, with an empty graph of `footprint` bytes in memory.
    pub fn settle_created(
        &mut self,
        name: &str,
        meta: ContextMeta,
        created: Result<(ContextStats, u64), IoFault>,
    ) -> (res: Result<(), CreateError>)
        requires
            old(self).wf(),
        ensures
            final(self).wf(),
            old(self).nonces_kept(*final(self)),
            final(self).pending.creates@ == old(self).pending.creates@.remove(name@),
            final(self).pending.deletes@ == old(self).pending.deletes@,
            final(self).pending.renames@ == old(self).pending.renames@,
            match created {
                Ok((stats, footprint)) => {
                    &&& res is Ok
                    &&& *final(self) == (AppState {
                        pending: final(self).pending,
                        registry: final(self).registry,
                        next_serial: old(self).next_serial.wrapping_add(1),
                        next_identity: old(self).next_identity.wrapping_add(1),
                        ..*old(self)
                    })
                    &&& exists|e: Entry|
                        is_fresh_entry(e, old(self).next_serial, old(self).next_identity, meta, stats, footprint)
                            && final(self).registry@ == #[trigger] old(self).registry@.insert(name@, e)
                },
                Err(fault) => {
                    &&& res == Err::<(), _>(CreateError::Io(fault))
                    &&& *final(self) == (AppState { pending: final(self).pending, ..*old(self) })
                },
            },
    {
        self.pending.creates.remove(name);
        match created {
            Err(fault) => Err(CreateError::Io(fault)),
            Ok((stats, footprint)) => {
                let serial: u64 = self.next_serial;
                let identity: u64 = self.next_identity;
                self.next_serial = serial.wrapping_add(1);
                self.next_identity = identity.wrapping_add(1);
                let floor = meta.dice_floor;
                let file = MetaFile {
                    meta,
                    stats,
                    usage: ContextUsage::default(),
                    revision: ContextRevision { graph: 0, passages: 0, config: 0 },
                    schema_digest: None,
                };
                let mut entry = Entry::cold_from_meta(serial, identity, file, 0, 0);
                entry.slot = Slot::Hot(GraphFacts { footprint, stats, applied_seq: 0, dice_floor: floor });
                assert(is_fresh_entry(entry, serial, identity, meta, stats, footprint));
                self.registry.insert(name.to_owned(), entry);
                Ok(())
            },
        }
    }

    /// Takes a context out of the registry and reserves its name while its
    /// files are removed. `None` for an unknown name; a name that is an end
    /// of a rename under way is refused. Handles on the registration find it
    /// gone from here on. The caller then writes the deletion marker, sweeps
    /// the groups, removes the files and reports to
    /// [`AppState::settle_deleted`].
    pub fn delete(&mut self, name: &str) -> (res: Option<Result<(), DeleteError>>)
        requires
            old(self).wf(),
        ensures
            final(self).wf(),
            old(self).nonces_kept(*final(self)),
            final(self).pending.creates@ == old(self).pending.creates@,
            final(self).pending.renames@ == old(self).pending.renames@,
            if !old(self).registry@.contains_key(name@) {
                &&& res is None
                &&& *final(self) == *old(self)
            } else if old(self).pending.renames@.contains(name@) {
                &&& res == Some(Err::<(), _>(DeleteError::MidRename))
                &&& *final(self) == *old(self)
            } else {
                &&& res == Some(Ok::<(), DeleteError>(()))
                &&& *final(self) == (AppState {
                    registry: final(self).registry,
                    pending: final(self).pending,
                    resident_estimate: old(self).resident_estimate.wrapping_sub(
                        old(self).registry@[name@].counted_bytes as i64,
                    ),
                    ..*old(self)
                })
                &&& final(self).registry@ == old(self).registry@.remove(name@)
                &&& final(self).pending.deletes@ == old(self).pending.deletes@.insert(name@)
            },
            old(self).groups_ok() ==> final(self).groups_ok(),
    {
        if !self.registry.contains(name) {
            return None;
        }
        if self.pending.renames.contains(name) {
            return Some(Err(DeleteError::MidRename));
        }
        match self.registry.remove(name) {
            None => None,
            Some(entry) => {
                self.resident_estimate = self.resident_estimate.wrapping_sub(entry.counted_bytes as i64);
                self.pending.deletes.insert(name.to_owned());
                proof {
                    if old(self).groups_ok() {
                        let m = crate::group_ops::groups_of(*self);
                        assert forall|g: Seq<char>| #[trigger] m.contains_key(g) implies self.group_ok(m[g]) by {
                            assert(old(self).group_ok(m[g]));
                        }
                    }
                }
                Some(Ok(()))
            },
        }
    }

    /// Ends a deletion: the reservation goes. The deletion marker is to be
    /// removed exactly where everything else was.
    pub fn settle_deleted(&mut self, name: &str, removed: Result<(), IoFault>) -> (res: Result<(), DeleteError>)
        requires
            old(self).wf(),
        ensures
            final(self).wf(),
            old(self).nonces_kept(*final(self)),
            *final(self) == (AppState { pending: final(self).pending, ..*old(self) }),
            final(self).pending.creates@ == old(self).pending.creates@,
            final(self).pending.renames@ == old(self).pending.renames@,
            final(self).pending.deletes@ == old(self).pending.deletes@.remove(name@),
            res == match removed {
                Ok(_) => Ok::<(), DeleteError>(()),
                Err(fault) => Err(DeleteError::Io(fault)),
            },
            old(self).groups_ok() && !crate::group_ops::has_member(*old(self), name@) ==> final(self).groups_ok(),
    {
        self.pending.deletes.remove(name);
        proof {
            if old(self).groups_ok() && !crate::group_ops::has_member(*old(self), name@) {
                let m = crate::group_ops::groups_of(*self);
                assert forall|g: Seq<char>| #[trigger] m.contains_key(g) implies self.group_ok(m[g]) by {
                    assert(old(self).group_ok(m[g]));
                    assert(!m[g].contexts.contains(name@));
                }
            }
        }
        match removed {
            Ok(_) => Ok(()),
            Err(fault) => Err(DeleteError::Io(fault)),
        }
    }

    /// Judges a context's rename and reserves both names for it. A context
    /// renamed to its own name is left alone, but one that is not there is
    /// reported all the same.
    pub fn rename_context(&mut self, from: &str, to: &str) -> (res: Result<RenameStart, RenameContextError>)
        requires
            old(self).wf(),
        ensures
            final(self).wf(),
            old(self).nonces_kept(*final(self)),
            *final(self) == (AppState { pending: final(self).pending, ..*old(self) }),
            final(self).pending.creates@ == old(self).pending.creates@,
            final(self).pending.deletes@ == old(self).pending.deletes@,
            res matches Ok(RenameStart::Begin { serial }) ==> final(self).pending.renames@
                == old(self).pending.renames@.insert(from@).insert(to@),
            !(res matches Ok(RenameStart::Begin { serial })) ==> final(self).pending.renames@
                == old(self).pending.renames@,
            if to@.len() == 0 {
                res == Err::<RenameStart, _>(RenameContextError::InvalidName)
            } else if !old(self).registry@.contains_key(from@) {
                res == Err::<RenameStart, _>(RenameContextError::NotFound)
            } else if from@ == to@ {
                res == Ok::<_, RenameContextError>(RenameStart::Nothing)
            } else if old(self).registry@.contains_key(to@) {
                res == Err::<RenameStart, _>(RenameContextError::AlreadyExists)
            } else if old(self).pending.deletes@.contains(from@) || old(self).pending.deletes@.contains(to@) || old(
                self).pending.creates@.contains(to@) || old(self).pending.renames@.contains(from@) || old(
                self).pending.renames@.contains(to@) {
                res == Err::<RenameStart, _>(RenameContextError::Busy)
            } else {
                res == Ok::<_, RenameContextError>(RenameStart::Begin { serial: old(self).registry@[from@].serial })
            },
    {
        if to.is_empty() {
            return Err(RenameContextError::InvalidName);
        }
        let serial: u64 = match self.registry.get(from) {
            None => {
                return Err(RenameContextError::NotFound);
            },
            Some(entry) => entry.serial,
        };
        if same(from, to) {
            return Ok(RenameStart::Nothing);
        }
        if self.registry.contains(to) {
            return Err(RenameContextError::AlreadyExists);
        }
        if self.pending.deletes.contains(from) || self.pending.deletes.contains(to) || self.pending.creates.contains(to)
            || self.pending.renames.contains(from) || self.pending.renames.contains(to) {
            return Err(RenameContextError::Busy);
        }
        self.pending.renames.insert(from.to_owned());
        self.pending.renames.insert(to.to_owned());
        Ok(RenameStart::Begin { serial })
    }

    /// What a rename has to save before the old name goes: nothing for a
    /// graph that is not loaded, else the image and the ticket's sidecar. The
    /// ticket then goes to [`AppState::rename_detach`]. `None` means that
    /// there is no such context.
    pub fn drain_entry_for_rename(&mut self, from: &str) -> (res: Option<DrainTicket>)
        requires
            old(self).wf(),
        ensures
            final(self).wf(),
            old(self).nonces_kept(*final(self)),
            *final(self) == (AppState { registry: final(self).registry, ..*old(self) }),
            ({
                let e = old(self).registry@[from@];
                if old(self).registry@.contains_key(from@) {
                    &&& final(self).registry@ == old(self).registry@.insert(from@, residency::sealed(e))
                    &&& res matches Some(ticket) && drain_ticket_of(from@, e, ticket)
                } else {
                    res is None && final(self).registry@ == old(self).registry@
                }
            }),
    {
        match self.registry.get_mut(from) {
            None => None,
            Some(entry) => {
                let sidecar = match entry.slot {
                    Slot::Cold => None,
                    Slot::Hot(facts) => {
                        let file = entry.sidecar(facts.stats);
                        entry.slot = Slot::Hot(
                            GraphFacts {
                                footprint: facts.footprint,
                                stats: facts.stats,
                                applied_seq: entry.wal_seq - 1,
                                dice_floor: facts.dice_floor,
                            },
                        );
                        Some(file)
                    },
                };
                Some(
                    DrainTicket {
                        name: from.to_owned(),
                        serial: entry.serial,
                        generation: entry.image_generation,
                        wal_seq: entry.wal_seq,
                        graph_revision: entry.graph_revision,
                        config_revision: entry.config_revision,
                        sidecar,
                    },
                )
            },
        }
    }

    /// Takes the old name out of the registry, once its state is saved: the
    /// point of no return. What moved on since it was drained stays, and has
    /// to be drained again. What is taken out leaves its usage counters as
    /// they stood at the last moment at which a read or write could still be
    /// counted there.
    pub fn rename_detach(&mut self, ticket: &DrainTicket) -> (res: Detachment)
        requires
            old(self).wf(),
        ensures
            final(self).wf(),
            old(self).nonces_kept(*final(self)),
            ({
                let e = old(self).registry@[ticket.name@];
                if !old(self).live(ticket.name@, ticket.serial) {
                    &&& res is Gone
                    &&& *final(self) == (AppState { registry: final(self).registry, ..*old(self) })
                    &&& final(self).registry@ == old(self).registry@
                } else if !drained(e, *ticket) {
                    &&& res is MovedOn
                    &&& *final(self) == (AppState { registry: final(self).registry, ..*old(self) })
                    &&& final(self).registry@ == old(self).registry@
                } else {
                    &&& res == Detachment::Detached(e.usage)
                    &&& *final(self) == (AppState {
                        registry: final(self).registry,
                        resident_estimate: old(self).resident_estimate.wrapping_sub(e.counted_bytes as i64),
                        ..*old(self)
                    })
                    &&& final(self).registry@ == old(self).registry@.remove(ticket.name@)
                }
            }),
            old(self).groups_ok() && old(self).pending.renames@.contains(ticket.name@) ==> final(self).groups_ok(),
    {
        match self.registry.get(ticket.name.as_str()) {
            None => {
                return Detachment::Gone;
            },
            Some(entry) => {
                if entry.serial != ticket.serial {
                    return Detachment::Gone;
                }
                let hot = match entry.slot {
                    Slot::Cold => false,
                    Slot::Hot(_) => true,
                };
                if hot != ticket.sidecar.is_some() || entry.image_generation != ticket.generation || entry.wal_seq
                    != ticket.wal_seq || entry.graph_revision != ticket.graph_revision || entry.config_revision
                    != ticket.config_revision {
                    return Detachment::MovedOn;
                }
            },
        }
        match self.registry.remove(ticket.name.as_str()) {
            None => Detachment::Gone,
            Some(entry) => {
                self.resident_estimate = self.resident_estimate.wrapping_sub(entry.counted_bytes as i64);
                proof {
                    if old(self).groups_ok() && old(self).pending.renames@.contains(ticket.name@) {
                        let m = crate::group_ops::groups_of(*self);
                        assert forall|g: Seq<char>| #[trigger] m.contains_key(g) implies self.group_ok(m[g]) by {
                            assert(old(self).group_ok(m[g]));
                        }
                    }
                }
                Detachment::Detached(entry.usage)
            },
        }
    }

    /// Registers a renamed context under its new name, cold, from its moved
    /// sidecar; the usage counters are the larger of the sidecar's and those
    /// at the detachment. True if it is pinned and so to be loaded now.
    pub fn rename_attach(
        &mut self,
        to: &str,
        file: MetaFile,
        final_usage: ContextUsage,
        wal_bytes: u64,
        passages_wal_bytes: u64,
    ) -> (pinned: bool)
        requires
            old(self).wf(),
        ensures
            final(self).wf(),
            old(self).nonces_kept(*final(self)),
            pinned == file.meta.pinned,
            *final(self) == (AppState {
                registry: final(self).registry,
                next_serial: old(self).next_serial.wrapping_add(1),
                next_identity: old(self).next_identity.wrapping_add(1),
                ..*old(self)
            }),
            exists|e: Entry|
                e.is_cold_from(
                    old(self).next_serial,
                    old(self).next_identity,
                    (MetaFile { usage: merged_usage(file.usage, final_usage), ..file }),
                    wal_bytes,
                    passages_wal_bytes,
                ) && final(self).registry@ == #[trigger] old(self).registry@.insert(to@, e),
            final(self).registry@.contains_key(to@),
            old(self).groups_ok() ==> final(self).groups_ok(),
    {
        let pinned = file.meta.pinned;
        let usage = ContextUsage {
            reads: max(file.usage.reads, final_usage.reads),
            empty_reads: max(file.usage.empty_reads, final_usage.empty_reads),
            writes: max(file.usage.writes, final_usage.writes),
            last_read_epoch: max(file.usage.last_read_epoch, final_usage.last_read_epoch),
            last_write_epoch: max(file.usage.last_write_epoch, final_usage.last_write_epoch),
        };
        let merged = MetaFile {
            meta: file.meta,
            stats: file.stats,
            usage,
            revision: file.revision,
            schema_digest: file.schema_digest,
        };
        let serial: u64 = self.next_serial;
        let identity: u64 = self.next_identity;
        self.next_serial = serial.wrapping_add(1);
        self.next_identity = identity.wrapping_add(1);
        let entry = Entry::cold_from_meta(serial, identity, merged, wal_bytes, passages_wal_bytes);
        self.registry.insert(to.to_owned(), entry);
        proof {
            if old(self).groups_ok() {
                let m = crate::group_ops::groups_of(*self);
                assert forall|g: Seq<char>| #[trigger] m.contains_key(g) implies self.group_ok(m[g]) by {
                    assert(old(self).group_ok(m[g]));
                }
            }
        }
        pinned
    }

    /// Ends a rename. Both names are free again where it is done or rolled
    /// back; both stay reserved where it is stuck, because the marker on disk
    /// still names both.
    pub fn settle_renamed(&mut self, from: &str, to: &str, stage: RenameStage) -> (res: Result<(), RenameContextError>)
        requires
            old(self).wf(),
        ensures
            final(self).wf(),
            old(self).nonces_kept(*final(self)),
            *final(self) == (AppState { pending: final(self).pending, ..*old(self) }),
            final(self).pending.creates@ == old(self).pending.creates@,
            final(self).pending.deletes@ == old(self).pending.deletes@,
            final(self).pending.renames@ == match stage {
                RenameStage::Done => old(self).pending.renames@.remove(from@).remove(to@),
                RenameStage::RolledBack(_) => old(self).pending.renames@.remove(from@).remove(to@),
                _ => old(self).pending.renames@,
            },
            match stage {
                RenameStage::Done => res is Ok,
                RenameStage::RolledBack(fault) => res == Err::<(), _>(RenameContextError::Io(fault)),
                RenameStage::Stuck(fault) => res == Err::<(), _>(RenameContextError::Io(fault)),
                _ => res == Err::<(), _>(RenameContextError::Busy),
            },
            old(self).groups_ok() && (crate::group_ops::has_member(*old(self), from@) ==> old(self).registry@.contains_key(
                from@,
            )) && (crate::group_ops::has_member(*old(self), to@) ==> old(self).registry@.contains_key(to@)) ==> final(
                self).groups_ok(),
    {
        let ghost was = *self;
        match stage {
            RenameStage::Done => {
                self.pending.renames.remove(from);
                self.pending.renames.remove(to);
                proof {
                    released_keeps_ok(was, *self, from@, to@);
                }
                Ok(())
            },
            RenameStage::RolledBack(fault) => {
                self.pending.renames.remove(from);
                self.pending.renames.remove(to);
                proof {
                    released_keeps_ok(was, *self, from@, to@);
                }
                Err(RenameContextError::Io(fault))
            },
            RenameStage::Stuck(fault) => Err(RenameContextError::Io(fault)),
            _ => Err(RenameContextError::Busy),
        }
    }
}

proof fn released_keeps_ok(was: AppState, now: AppState, from: Seq<char>, to: Seq<char>)
    requires
        now == (AppState { pending: now.pending, ..was }),
        now.pending.deletes@ == was.pending.deletes@,
        now.pending.renames@ == was.pending.renames@.remove(from).remove(to),
    ensures
        was.groups_ok() && (crate::group_ops::has_member(was, from) ==> was.registry@.contains_key(from)) && (
        crate::group_ops::has_member(was, to) ==> was.registry@.contains_key(to)) ==> now.groups_ok(),
{
    let m = crate::group_ops::groups_of(was);
    if was.groups_ok() && (crate::group_ops::has_member(was, from) ==> was.registry@.contains_key(from)) && (
    crate::group_ops::has_member(was, to) ==> was.registry@.contains_key(to)) {
        assert forall|g: Seq<char>| #[trigger] crate::group_ops::groups_of(now).contains_key(g) implies now.group_ok(m[g]) by {
            assert(m.contains_key(g));
            assert(was.group_ok(m[g]));
            assert forall|c: Seq<char>| m[g].contexts.contains(c) implies now.registry@.dom().union(
                now.pending.deletes@,
            ).union(now.pending.renames@).contains(c) by {
                assert(was.registry@.dom().union(was.pending.deletes@).union(was.pending.renames@).contains(c));
                if c == from || c == to {
                    assert(crate::group_ops::has_member(was, c));
                }
            }
        }
    }
}

/// A name is not free while a create, a delete or a rename holds it.
pub proof fn reserved_names_are_taken(state: AppState, name: Seq<char>)
    requires
        state.pending.creates@.contains(name) || state.pending.deletes@.contains(name) || state.pending.renames@.contains(
            name,
        ) || state.registry@.contains_key(name),
    ensures
        !state.is_free(name),
{
}

/// A handle on a context that was deleted, or renamed away, is never live
/// again, whatever is registered under the name later: an outcome that comes
/// too late finds nothing to change.
pub proof fn stale_handles_stay_stale(before: AppState, states: Seq<AppState>, name: Seq<char>, serial: u64)
    requires
        before.nonces_fresh(),
        before.live(name, serial),
        states.len() > 0,
        states[0].registry@ == before.registry@.remove(name),
        states[0].next_serial == before.next_serial,
        state::is_history(states),
    ensures
        !states.last().live(name, serial),
{
    assert(before.registry@.contains_key(name));
    assert(!states[0].live(name, serial));
    state::history_keeps_nonces(states);
}

/// A context that is created anew is another incarnation: it bears a cache
/// identity and a serial that nothing bore before it.
pub proof fn new_incarnations_are_new(was: AppState, now: AppState, name: Seq<char>, e: Entry)
    requires
        was.nonces_fresh(),
        e.serial == was.next_serial,
        e.cache_identity == was.next_identity,
        now.registry@ == was.registry@.insert(name, e),
    ensures
        forall|n: Seq<char>| !#[trigger] was.live(n, now.registry@[name].serial),
        forall|n: Seq<char>| !#[trigger] was.bears(n, now.registry@[name].cache_identity),
{
}

/// A rename goes from stage to stage in one order: the family is fetched, the
/// marker written, the destination swept, the entry saved, the files moved,
/// the context registered. A failure before the marker stands ends it as it
/// began; one after, before the files move, takes the marker back first; one
/// while they move, or while the marker is taken back and is still there,
/// leaves it stuck. What ended stays as it ended.
pub proof fn renames_go_in_order(stage: RenameStage, fault: IoFault, error: IoFault, outcome: Result<(), IoFault>)
    ensures
        stage_after(RenameStage::Hydrate, Ok(())) is Mark,
        stage_after(RenameStage::Mark, Ok(())) is Sweep,
        stage_after(RenameStage::Sweep, Ok(())) is Drain,
        stage_after(RenameStage::Drain, Ok(())) is Move,
        stage_after(RenameStage::Move, Ok(())) is Register,
        stage_after(RenameStage::Register, outcome) is Done,
        stage_after(RenameStage::Hydrate, Err(fault)) == RenameStage::RolledBack(fault),
        stage_after(RenameStage::Mark, Err(fault)) == RenameStage::RolledBack(fault),
        stage_after(RenameStage::Sweep, Err(fault)) == RenameStage::Retract(fault),
        stage_after(RenameStage::Drain, Err(fault)) == RenameStage::Retract(fault),
        stage_after(RenameStage::Move, Err(fault)) == RenameStage::Stuck(fault),
        stage_after(RenameStage::Retract(error), Ok(())) == RenameStage::RolledBack(error),
        fault.not_found ==> stage_after(RenameStage::Retract(error), Err(fault)) == RenameStage::RolledBack(error),
        !fault.not_found ==> stage_after(RenameStage::Retract(error), Err(fault)) == RenameStage::Stuck(error),
        ended(stage) ==> stage_after(stage, outcome) == stage,
        ended(stage) <==> stage is Done || stage is RolledBack || stage is Stuck,
{
}

/// What a rename saved is the whole of an entry exactly while none of its
/// generation, its log and its two revisions has moved since, and it is as
/// loaded as it was. A loaded entry is saved with its sidecar, a cold one
/// without.
pub proof fn drains_cover_until_something_moves(name: Seq<char>, e: Entry, ticket: DrainTicket, now: Entry)
    requires
        drain_ticket_of(name, e, ticket),
    ensures
        ticket.name@ == name,
        ticket.serial == e.serial,
        drained(now, ticket) <==> {
            &&& now.slot is Hot == e.slot is Hot
            &&& now.image_generation == e.image_generation
            &&& now.wal_seq == e.wal_seq
            &&& now.graph_revision == e.graph_revision
            &&& now.config_revision == e.config_revision
        },
        ticket.sidecar is Some <==> e.slot is Hot,
        ticket.sidecar matches Some(file) ==> file.meta == e.meta && file.usage == e.usage && file.schema_digest
            == e.schema_digest && file.revision.graph == e.graph_revision && file.revision.passages == e.passage_revision
            && file.revision.config == e.config_revision && file.stats == e.slot->Hot_0.stats,
{
}

/// A name is free exactly where no context bears it and none is being made,
/// removed or renamed under it.
pub proof fn names_are_free_of_every_use(state: AppState, name: Seq<char>)
    ensures
        state.registry@.contains_key(name) ==> !state.is_free(name),
        state.pending.creates@.contains(name) ==> !state.is_free(name),
        state.pending.deletes@.contains(name) ==> !state.is_free(name),
        state.pending.renames@.contains(name) ==> !state.is_free(name),
        !state.registry@.contains_key(name) && !state.pending.creates@.contains(name) && !state.pending.deletes@.contains(name)
            && !state.pending.renames@.contains(name) ==> state.is_free(name),
{
}

/// A new context starts loaded, empty on disk, clean and unused, at sequence
/// number one and at revision zero, with its own floor and counts.
pub proof fn new_contexts_start_clean(
    e: Entry,
    serial: u64,
    identity: u64,
    meta: ContextMeta,
    stats: ContextStats,
    footprint: u64,
)
    requires
        is_fresh_entry(e, serial, identity, meta, stats, footprint),
    ensures
        e.serial == serial && e.cache_identity == identity && e.meta == meta && e.stats == stats,
        e.slot matches Slot::Hot(facts) && facts.footprint == footprint && facts.stats == stats && facts.applied_seq == 0
            && facts.dice_floor == meta.dice_floor,
        e.wal_seq == 1 && e.graph_revision == 0 && e.config_revision == 0 && e.passage_revision == 0 && e.image_generation
            == 0,
        e.disk_bytes() == 0,
        e.cache_bytes() == 0 && e.counted_bytes == 0,
        !e.dirty && !e.flushing && !e.saving && !e.usage_dirty && !e.bm25_dirty && !e.passages_embed_dirty,
        e.usage.reads == 0 && e.usage.empty_reads == 0 && e.usage.writes == 0 && e.usage.last_read_epoch == 0
            && e.usage.last_write_epoch == 0,
        e.load_failure is None && e.passages_load_failure is None && e.schema is None && e.schema_digest is None,
        e.last_touch == 0,
{
}

/// Of two snapshots of the same counters every counter is kept at its
/// furthest, so the order in which they are merged makes no difference and
/// merging one again changes nothing.
pub proof fn merged_usage_is_the_furthest(a: ContextUsage, b: ContextUsage)
    ensures
        ({
            let m = merged_usage(a, b);
            &&& m.reads >= a.reads && m.reads >= b.reads && (m.reads == a.reads || m.reads == b.reads)
            &&& m.empty_reads >= a.empty_reads && m.empty_reads >= b.empty_reads && (m.empty_reads == a.empty_reads
                || m.empty_reads == b.empty_reads)
            &&& m.writes >= a.writes && m.writes >= b.writes && (m.writes == a.writes || m.writes == b.writes)
            &&& m.last_read_epoch >= a.last_read_epoch && m.last_read_epoch >= b.last_read_epoch && (m.last_read_epoch
                == a.last_read_epoch || m.last_read_epoch == b.last_read_epoch)
            &&& m.last_write_epoch >= a.last_write_epoch && m.last_write_epoch >= b.last_write_epoch && (m.last_write_epoch
                == a.last_write_epoch || m.last_write_epoch == b.last_write_epoch)
            &&& merged_usage(b, a) == m
            &&& merged_usage(m, a) == m
        }),
{
}

} // verus!
