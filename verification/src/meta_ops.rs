//! A context's description and tuning, and its schema.
//!
//! A change goes into memory, then to the sidecar; where the sidecar cannot
//! be written, memory goes back to what it was. The config revision moves
//! exactly with a change that is durable.
use crate::names::NameMap;
use crate::state;
use crate::state::{
    AppState, ChangeKind, ContextMeta, Entry, GraphFacts, InstalledSchema, IoFault, MetaFile, Slot,
};
use crate::text::same;
use crate::write_path;
use crate::write_path::{AccessError, LoadedGraph};
use vstd::prelude::*;

verus! {

/// The rank of the floor zero.
pub const FLOOR_ZERO: u64 = 0x8000_0000_0000_0000;

/// The rank of the floor one.
pub const FLOOR_ONE: u64 = 0xbff0_0000_0000_0000;

/// The rank of infinity; what lies above is not a number.
pub const RANK_INFINITY: u64 = 0xfff0_0000_0000_0000;

/// The rank of negative infinity; what lies below is not a number.
pub const RANK_NEGATIVE_INFINITY: u64 = 0x000f_ffff_ffff_ffff;

/// The rank of a value that is not a number.
pub open spec fn is_nan_rank(rank: u64) -> bool {
    rank > RANK_INFINITY || rank < RANK_NEGATIVE_INFINITY
}

/// A floor brought into the range from zero to one. What is not a number
/// stays as it is.
pub open spec fn clamped(rank: u64) -> u64 {
    if is_nan_rank(rank) {
        rank
    } else if rank < FLOOR_ZERO {
        FLOOR_ZERO
    } else if rank > FLOOR_ONE {
        FLOOR_ONE
    } else {
        rank
    }
}

/// A floor brought into the range from zero to one.
pub fn clamp_floor(rank: u64) -> (res: u64)
    ensures
        res == clamped(rank),
{
    if rank > RANK_INFINITY || rank < RANK_NEGATIVE_INFINITY {
        rank
    } else if rank < FLOOR_ZERO {
        FLOOR_ZERO
    } else if rank > FLOOR_ONE {
        FLOOR_ONE
    } else {
        rank
    }
}

/// A floor lies in the range from zero to one once it was set.
pub proof fn set_floors_are_in_range(rank: u64)
    requires
        !is_nan_rank(rank),
    ensures
        FLOOR_ZERO <= clamped(rank) <= FLOOR_ONE,
        clamped(clamped(rank)) == clamped(rank),
{
}

/// Two floors are the same value. What is not a number is the same as
/// nothing.
pub open spec fn same_floor(a: Option<u64>, b: Option<u64>) -> bool {
    match (a, b) {
        (None, None) => true,
        (Some(x), Some(y)) => x == y && !is_nan_rank(x),
        _ => false,
    }
}

fn floors_equal(a: Option<u64>, b: Option<u64>) -> (res: bool)
    ensures
        res == same_floor(a, b),
{
    match (a, b) {
        (None, None) => true,
        (Some(x), Some(y)) => x == y && !(x > RANK_INFINITY || x < RANK_NEGATIVE_INFINITY),
        _ => false,
    }
}

/// Two metas say the same.
pub open spec fn same_meta(a: ContextMeta, b: ContextMeta) -> bool {
    a.description@ == b.description@ && a.pinned == b.pinned && same_floor(a.dice_floor, b.dice_floor) && same_floor(
        a.semantic_floor,
        b.semantic_floor,
    )
}

/// A meta with a change applied.
pub open spec fn changed_meta(
    meta: ContextMeta,
    description: Option<String>,
    pinned: Option<bool>,
    dice_floor: Option<u64>,
    semantic_floor: Option<u64>,
) -> ContextMeta {
    ContextMeta {
        description: match description {
            Some(d) => d,
            None => meta.description,
        },
        pinned: match pinned {
            Some(p) => p,
            None => meta.pinned,
        },
        dice_floor: match dice_floor {
            Some(f) => Some(clamped(f)),
            None => meta.dice_floor,
        },
        semantic_floor: match semantic_floor {
            Some(f) => Some(clamped(f)),
            None => meta.semantic_floor,
        },
    }
}

/// The loaded graph, if any, runs with this floor.
pub open spec fn with_floor(slot: Slot, floor: Option<u64>) -> Slot {
    match slot {
        Slot::Hot(facts) => Slot::Hot(GraphFacts { dice_floor: floor, ..facts }),
        Slot::Cold => Slot::Cold,
    }
}

/// The entry with another meta. A loaded graph picks a new floor up at once.
pub open spec fn with_meta(e: Entry, meta: ContextMeta, push_floor: bool) -> Entry {
    Entry {
        meta,
        slot: if push_floor {
            with_floor(e.slot, meta.dice_floor)
        } else {
            e.slot
        },
        ..e
    }
}

/// The entry with its meta as it was.
pub open spec fn rolled_back(e: Entry, previous: ContextMeta) -> Entry {
    with_meta(e, previous, true)
}

fn set_slot_floor(slot: Slot, floor: Option<u64>) -> (res: Slot)
    ensures
        res == with_floor(slot, floor),
{
    match slot {
        Slot::Hot(facts) => Slot::Hot(
            GraphFacts {
                footprint: facts.footprint,
                stats: facts.stats,
                applied_seq: facts.applied_seq,
                dice_floor: floor,
            },
        ),
        Slot::Cold => Slot::Cold,
    }
}

/// A change of meta that waits for its sidecar.
pub struct MetaTicket {
    pub name: String,
    pub serial: u64,
    pub previous: ContextMeta,
    pub changed: bool,
    /// The sidecar to write.
    pub sidecar: MetaFile,
}

pub enum PutSchemaError {
    Load(String),
    /// A label alias that resolves to the reserved label.
    ReservedAlias(String),
    Io(IoFault),
}

/// What is to be done with a schema that passed.
pub enum PutSchemaStep {
    /// The same document stands already.
    Unchanged(InstalledSchema),
    /// Write the ticket's sidecar, then the schema's bytes.
    Write(SchemaTicket),
}

/// A schema that waits for its sidecar and its bytes.
pub struct SchemaTicket {
    pub name: String,
    pub serial: u64,
    pub installed: InstalledSchema,
    pub previous_digest: Option<String>,
    pub sidecar: MetaFile,
}

/// The label that says what type a thing has, reserved once a schema is
/// installed.
pub open spec fn schema_type_label() -> Seq<char> {
    "schema:type"@
}

/// The first alias, in name order, that stands for the reserved label.
pub open spec fn reserved_alias_is(labels: Map<Seq<char>, String>, alias: Seq<char>) -> bool {
    crate::groups::first_such(alias, |a: Seq<char>| labels.contains_key(a) && labels[a]@ == schema_type_label())
}

/// Some alias stands for the reserved label.
pub open spec fn has_reserved_alias(labels: Map<Seq<char>, String>) -> bool {
    exists|a: Seq<char>| #[trigger] labels.contains_key(a) && labels[a]@ == schema_type_label()
}

/// The first alias, in name order, that stands for the reserved label.
pub fn reserved_alias(labels: &NameMap<String>) -> (res: Option<String>)
    requires
        labels.wf(),
    ensures
        match res {
            Some(alias) => reserved_alias_is(labels@, alias@) && has_reserved_alias(labels@),
            None => !has_reserved_alias(labels@),
        },
{
    let n: usize = labels.len();
    let ghost order = labels.order();
    let mut i: usize = 0;
    proof {
        labels.order_is_domain();
    }
    while i < n
        invariant
            labels.wf(),
            order == labels.order(),
            n == order.len(),
            i <= n,
            forall|j: int| 0 <= j < i ==> labels@[#[trigger] order[j]]@ != schema_type_label(),
        decreases n - i,
    {
        if same(labels.value_at(i).as_str(), "schema:type") {
            let alias = labels.key_at(i).clone();
            proof {
                labels.order_is_domain();
                let p = |a: Seq<char>| labels@.contains_key(a) && labels@[a]@ == schema_type_label();
                assert(p(alias@));
                assert forall|o: Seq<char>| #[trigger] p(o) implies !crate::names::before(o, alias@) by {
                    assert(order.contains(o));
                    let j = choose|j: int| 0 <= j < order.len() && order[j] == o;
                    crate::names::before_irreflexive(o);
                    if j > i && crate::names::before(o, alias@) {
                        assert(crate::names::before(order[i as int], order[j]));
                        crate::names::before_transitive(o, alias@, o);
                    }
                }
            }
            return Some(alias);
        }
        i = i + 1;
    }
    proof {
        assert forall|a: Seq<char>| #[trigger] labels@.contains_key(a) implies labels@[a]@ != schema_type_label() by {
            labels.order_is_domain();
            assert(order.contains(a));
        }
    }
    None
}

impl AppState {
    /// Changes a context's description, pin and floors. A pinned context has
    /// to be in memory, so `loaded` is taken in where it is not. The outer
    /// `None` is an unknown context; an error is a load that failed, and then
    /// the meta is as it was. What passes waits for its sidecar, to be
    /// reported to [`AppState::settle_updated_meta`].
    pub fn update_meta(
        &mut self,
        name: &str,
        description: Option<String>,
        pinned: Option<bool>,
        dice_floor: Option<u64>,
        semantic_floor: Option<u64>,
        loaded: Result<LoadedGraph, String>,
        now: u64,
    ) -> (res: Option<Result<MetaTicket, String>>)
        requires
            old(self).wf(),
        ensures
            final(self).wf(),
            old(self).nonces_kept(*final(self)),
            *final(self) == (AppState {
                registry: final(self).registry,
                resident_estimate: final(self).resident_estimate,
                metrics: final(self).metrics,
                ..*old(self)
            }),
            update_meta_gate(
                *old(self),
                *final(self),
                name@,
                description,
                pinned,
                dice_floor,
                semantic_floor,
                loaded,
                now,
                res,
            ),
    {
        let previous = match self.set_meta(name, description, pinned, dice_floor, semantic_floor) {
            None => {
                return None;
            },
            Some(previous) => previous,
        };
        let ghost e0 = old(self).registry@[name@];
        let ghost e1 = with_meta(
            e0,
            changed_meta(e0.meta, description, pinned, dice_floor, semantic_floor),
            dice_floor is Some,
        );
        let must_load = match self.registry.get(name) {
            Some(entry) => entry.meta.pinned,
            None => false,
        };
        if must_load {
            match self.ensure_hot(name, loaded, now) {
                Ok(_) => {},
                Err(error) => {
                    let message = match error {
                        AccessError::Load(message) => message,
                        _ => String::new(),
                    };
                    let ghost e2 = write_path::after_load(e1, loaded, now, old(self).options.load_retry);
                    assert(self.registry@ =~= old(self).registry@.insert(name@, e2));
                    self.rollback_meta(name, previous);
                    let ghost e3 = rolled_back(e2, e0.meta);
                    assert(self.registry@ =~= old(self).registry@.insert(name@, write_path::recounted(e3)));
                    return Some(Err(message));
                },
            }
        }
        let ghost e3 = if must_load {
            write_path::after_load(e1, loaded, now, old(self).options.load_retry)
        } else {
            e1
        };
        assert(self.registry@ =~= old(self).registry@.insert(name@, e3));
        self.recount_entry(name);
        let ghost e4 = write_path::recounted(e3);
        assert(self.registry@ =~= old(self).registry@.insert(name@, e4));
        match self.bump_meta(name, previous) {
            None => None,
            Some(ticket) => {
                assert(self.registry@ =~= old(self).registry@.insert(name@, bumped(e4, ticket.changed)));
                Some(Ok(ticket))
            },
        }
    }

    /// Applies a change of meta to the entry and returns the meta it had.
    fn set_meta(
        &mut self,
        name: &str,
        description: Option<String>,
        pinned: Option<bool>,
        dice_floor: Option<u64>,
        semantic_floor: Option<u64>,
    ) -> (res: Option<ContextMeta>)
        requires
            old(self).wf(),
        ensures
            final(self).wf(),
            old(self).nonces_kept(*final(self)),
            *final(self) == (AppState { registry: final(self).registry, ..*old(self) }),
            if old(self).registry@.contains_key(name@) {
                let e = old(self).registry@[name@];
                &&& res == Some(e.meta)
                &&& final(self).registry@ == old(self).registry@.insert(
                    name@,
                    with_meta(
                        e,
                        changed_meta(e.meta, description, pinned, dice_floor, semantic_floor),
                        dice_floor is Some,
                    ),
                )
            } else {
                res is None && final(self).registry@ == old(self).registry@
            },
    {
        match self.registry.get_mut(name) {
            None => None,
            Some(entry) => {
                let previous = entry.meta.copy();
                let text = match description {
                    Some(d) => d,
                    None => entry.meta.description.clone(),
                };
                let pin = match pinned {
                    Some(p) => p,
                    None => entry.meta.pinned,
                };
                let dice = match dice_floor {
                    Some(f) => Some(clamp_floor(f)),
                    None => entry.meta.dice_floor,
                };
                let semantic = match semantic_floor {
                    Some(f) => Some(clamp_floor(f)),
                    None => entry.meta.semantic_floor,
                };
                entry.meta = ContextMeta {
                    description: text,
                    pinned: pin,
                    dice_floor: dice,
                    semantic_floor: semantic,
                };
                if dice_floor.is_some() {
                    entry.slot = set_slot_floor(entry.slot, dice);
                }
                Some(previous)
            },
        }
    }

    /// Puts the meta back that an entry had, and counts it anew.
    fn rollback_meta(&mut self, name: &str, previous: ContextMeta)
        requires
            old(self).wf(),
        ensures
            final(self).wf(),
            old(self).nonces_kept(*final(self)),
            *final(self) == (AppState {
                registry: final(self).registry,
                resident_estimate: final(self).resident_estimate,
                ..*old(self)
            }),
            if old(self).registry@.contains_key(name@) {
                let e = rolled_back(old(self).registry@[name@], previous);
                &&& final(self).registry@ == old(self).registry@.insert(name@, write_path::recounted(e))
                &&& final(self).resident_estimate == write_path::estimate_after(old(self).resident_estimate, e)
            } else {
                final(self).registry@ == old(self).registry@ && final(self).resident_estimate == old(self).resident_estimate
            },
    {
        let ghost e = rolled_back(old(self).registry@[name@], previous);
        let mut there = false;
        if let Some(entry) = self.registry.get_mut(name) {
            entry.slot = set_slot_floor(entry.slot, previous.dice_floor);
            entry.meta = previous;
            there = true;
        }
        if there {
            assert(self.registry@ =~= old(self).registry@.insert(name@, e));
            self.recount_entry(name);
            assert(self.registry@ =~= old(self).registry@.insert(name@, write_path::recounted(e)));
        }
    }

    /// Moves the config revision if the meta is not what it was, and says
    /// what to write.
    fn bump_meta(&mut self, name: &str, previous: ContextMeta) -> (res: Option<MetaTicket>)
        requires
            old(self).wf(),
        ensures
            final(self).wf(),
            old(self).nonces_kept(*final(self)),
            *final(self) == (AppState { registry: final(self).registry, ..*old(self) }),
            if old(self).registry@.contains_key(name@) {
                let e = old(self).registry@[name@];
                let changed = !same_meta(e.meta, previous);
                let after = bumped(e, changed);
                &&& final(self).registry@ == old(self).registry@.insert(name@, after)
                &&& res matches Some(ticket) && ticket.name@ == name@ && ticket.serial == e.serial && ticket.previous == previous
                    && ticket.changed == changed && after.sidecar_is(after.stats, ticket.sidecar)
            } else {
                res is None && final(self).registry@ == old(self).registry@
            },
    {
        match self.registry.get_mut(name) {
            None => None,
            Some(entry) => {
                let same_text = same(entry.meta.description.as_str(), previous.description.as_str());
                let same_pin = entry.meta.pinned == previous.pinned;
                let same_dice = floors_equal(entry.meta.dice_floor, previous.dice_floor);
                let same_semantic = floors_equal(entry.meta.semantic_floor, previous.semantic_floor);
                let changed = !(same_text && same_pin && same_dice && same_semantic);
                if changed {
                    entry.config_revision = entry.config_revision.wrapping_add(1);
                }
                let sidecar = entry.sidecar(entry.stats);
                Some(MetaTicket { name: name.to_owned(), serial: entry.serial, previous, changed, sidecar })
            },
        }
    }

    /// Ends a change of meta: where its sidecar could not be written, the
    /// meta and the config revision are as they were. A change that landed in
    /// between is left alone.
    pub fn settle_updated_meta(&mut self, ticket: MetaTicket, written: Result<(), IoFault>) -> (res: Result<
        ContextMeta,
        IoFault,
    >)
        requires
            old(self).wf(),
        ensures
            final(self).wf(),
            old(self).nonces_kept(*final(self)),
            *final(self) == (AppState {
                registry: final(self).registry,
                resident_estimate: final(self).resident_estimate,
                ..*old(self)
            }),
            match written {
                Ok(_) => {
                    &&& final(self).registry@ == old(self).registry@
                    &&& final(self).resident_estimate == old(self).resident_estimate
                    &&& res == Ok::<_, IoFault>(ticket.sidecar.meta)
                },
                Err(fault) => {
                    &&& res == Err::<ContextMeta, _>(fault)
                    &&& if old(self).live(ticket.name@, ticket.serial) && holds_meta(
                        old(self).registry@[ticket.name@],
                        ticket.sidecar.meta,
                    ) {
                        let e = meta_taken_back(old(self).registry@[ticket.name@], ticket);
                        &&& final(self).registry@ == old(self).registry@.insert(ticket.name@, write_path::recounted(e))
                        &&& final(self).resident_estimate == write_path::estimate_after(old(self).resident_estimate, e)
                    } else {
                        final(self).registry@ == old(self).registry@ && final(self).resident_estimate
                            == old(self).resident_estimate
                    }
                },
            },
    {
        match written {
            Ok(_) => Ok(ticket.sidecar.meta),
            Err(fault) => {
                let mut mine = false;
                let ghost was = old(self).registry@[ticket.name@];
                if let Some(entry) = self.registry.get_mut(ticket.name.as_str()) {
                    let held = entry.meta.pinned == ticket.sidecar.meta.pinned && entry.meta.dice_floor
                        == ticket.sidecar.meta.dice_floor && entry.meta.semantic_floor
                        == ticket.sidecar.meta.semantic_floor && same(
                        entry.meta.description.as_str(),
                        ticket.sidecar.meta.description.as_str(),
                    );
                    if entry.serial == ticket.serial && held {
                        mine = true;
                        if ticket.changed && entry.config_revision == ticket.sidecar.revision.config {
                            entry.config_revision = entry.config_revision.wrapping_sub(1);
                        }
                        entry.slot = set_slot_floor(entry.slot, ticket.previous.dice_floor);
                        entry.meta = ticket.previous;
                    } else {
                        assert(old(self).registry@.insert(ticket.name@, *entry) =~= old(self).registry@);
                    }
                }
                if mine {
                    let ghost e = meta_taken_back(was, ticket);
                    assert(self.registry@ =~= old(self).registry@.insert(ticket.name@, e));
                    self.recount_entry(ticket.name.as_str());
                    assert(self.registry@ =~= old(self).registry@.insert(ticket.name@, write_path::recounted(e)));
                }
                Err(fault)
            },
        }
    }

    /// Whether a schema has to be read before it is known: a digest is
    /// recorded, but no schema was checked against it yet.
    pub fn schema_unresolved(&self, name: &str) -> (res: bool)
        requires
            self.wf(),
        ensures
            res == (self.registry@.contains_key(name@) && unresolved(self.registry@[name@])),
    {
        match self.registry.get(name) {
            Some(entry) => entry.schema.is_none() && entry.schema_digest.is_some(),
            None => false,
        }
    }

    /// The installed schema of a context, `None` inside for a context without
    /// one. Where it is not resolved yet, `loaded` is taken in first.
    pub fn schema_of(&mut self, name: &str, loaded: Result<LoadedGraph, String>, now: u64) -> (res: Option<
        Result<Option<InstalledSchema>, String>,
    >)
        requires
            old(self).wf(),
        ensures
            final(self).wf(),
            old(self).nonces_kept(*final(self)),
            *final(self) == (AppState {
                registry: final(self).registry,
                resident_estimate: final(self).resident_estimate,
                metrics: final(self).metrics,
                ..*old(self)
            }),
            schema_read(*old(self), *final(self), name@, loaded, now, res),
    {
        match self.registry.get(name) {
            None => {
                return None;
            },
            Some(entry) => {
                if entry.schema.is_some() || entry.schema_digest.is_none() {
                    return Some(Ok(state::copy_schema(&entry.schema)));
                }
            },
        }
        let ghost e = old(self).registry@[name@];
        match self.ensure_hot(name, loaded, now) {
            Ok(_) => {},
            Err(error) => {
                let message = match error {
                    AccessError::Load(message) => message,
                    _ => String::new(),
                };
                return Some(Err(message));
            },
        }
        let ghost h = write_path::after_load(e, loaded, now, old(self).options.load_retry);
        assert(self.registry@ =~= old(self).registry@.insert(name@, h));
        self.recount_entry(name);
        assert(self.registry@ =~= old(self).registry@.insert(name@, write_path::recounted(h)));
        match self.registry.get(name) {
            None => None,
            Some(entry) => Some(Ok(state::copy_schema(&entry.schema))),
        }
    }

    /// The label to hide from ordinary reads: the reserved label, once a
    /// schema is installed in any mode. A schema that cannot be read counts
    /// as installed.
    pub fn hidden_label(&mut self, name: &str, loaded: Result<LoadedGraph, String>, now: u64) -> (res: Option<&'static str>)
        requires
            old(self).wf(),
        ensures
            final(self).wf(),
            old(self).nonces_kept(*final(self)),
            exists|schema: Option<Result<Option<InstalledSchema>, String>>| #[trigger]
                schema_read(*old(self), *final(self), name@, loaded, now, schema) && res is Some == hides(schema),
            res matches Some(label) ==> label@ == schema_type_label(),
            *final(self) == (AppState {
                registry: final(self).registry,
                resident_estimate: final(self).resident_estimate,
                metrics: final(self).metrics,
                ..*old(self)
            }),
    {
        let schema = self.schema_of(name, loaded, now);
        assert(schema_read(*old(self), *self, name@, loaded, now, schema));
        match schema {
            None => None,
            Some(Ok(Some(_))) => Some("schema:type"),
            Some(Ok(None)) => None,
            Some(Err(_)) => Some("schema:type"),
        }
    }

    /// [`AppState::hidden_label`] as the list of labels to leave out.
    pub fn excluded_hidden_label(&mut self, name: &str, loaded: Result<LoadedGraph, String>, now: u64) -> (res: Vec<&'static str>)
        requires
            old(self).wf(),
        ensures
            final(self).wf(),
            old(self).nonces_kept(*final(self)),
            exists|schema: Option<Result<Option<InstalledSchema>, String>>| #[trigger]
                schema_read(*old(self), *final(self), name@, loaded, now, schema) && res.len() == if hides(schema) {
                    1int
                } else {
                    0int
                },
            forall|i: int| 0 <= i < res.len() ==> (#[trigger] res@[i])@ == schema_type_label(),
            *final(self) == (AppState {
                registry: final(self).registry,
                resident_estimate: final(self).resident_estimate,
                metrics: final(self).metrics,
                ..*old(self)
            }),
    {
        let mut res: Vec<&'static str> = Vec::new();
        if let Some(label) = self.hidden_label(name, loaded, now) {
            res.push(label);
        }
        res
    }

    /// The first alias of a write that would stand for the reserved label,
    /// where a schema is installed. Without one the label is an ordinary one.
    pub fn reserved_alias_conflict(
        &mut self,
        name: &str,
        labels: &NameMap<String>,
        loaded: Result<LoadedGraph, String>,
        now: u64,
    ) -> (res: Option<String>)
        requires
            old(self).wf(),
            labels.wf(),
        ensures
            final(self).wf(),
            old(self).nonces_kept(*final(self)),
            exists|schema: Option<Result<Option<InstalledSchema>, String>>| #[trigger]
                schema_read(*old(self), *final(self), name@, loaded, now, schema) && match res {
                    Some(alias) => hides(schema) && reserved_alias_is(labels@, alias@),
                    None => !hides(schema) || !has_reserved_alias(labels@),
                },
            *final(self) == (AppState {
                registry: final(self).registry,
                resident_estimate: final(self).resident_estimate,
                metrics: final(self).metrics,
                ..*old(self)
            }),
    {
        match self.hidden_label(name, loaded, now) {
            None => None,
            Some(_) => reserved_alias(labels),
        }
    }

    /// Judges a schema for a context. The context has to be loaded; none of
    /// its label aliases may stand for the reserved label; and a document
    /// whose digest stands already changes nothing. Else the revision and the
    /// digest move, and the ticket says what to write: the sidecar first,
    /// reported to [`AppState::schema_sidecar_written`].
    pub fn put_schema(
        &mut self,
        name: &str,
        installed: InstalledSchema,
        digest: Result<String, IoFault>,
        label_aliases: &NameMap<String>,
        loaded: Result<LoadedGraph, String>,
        now: u64,
    ) -> (res: Option<Result<PutSchemaStep, PutSchemaError>>)
        requires
            old(self).wf(),
            label_aliases.wf(),
        ensures
            final(self).wf(),
            old(self).nonces_kept(*final(self)),
            *final(self) == (AppState {
                registry: final(self).registry,
                resident_estimate: final(self).resident_estimate,
                metrics: final(self).metrics,
                ..*old(self)
            }),
            put_schema_gate(*old(self), *final(self), name@, installed, digest, label_aliases@, loaded, now, res),
    {
        if !self.registry.contains(name) {
            return None;
        }
        let ghost e = old(self).registry@[name@];
        match self.ensure_hot(name, loaded, now) {
            Ok(_) => {},
            Err(error) => {
                let message = match error {
                    AccessError::Load(message) => message,
                    _ => String::new(),
                };
                let ghost f = write_path::after_load(e, loaded, now, old(self).options.load_retry);
                assert(self.registry@ =~= old(self).registry@.insert(name@, f));
                self.recount_entry(name);
                assert(self.registry@ =~= old(self).registry@.insert(name@, write_path::recounted(f)));
                return Some(Err(PutSchemaError::Load(message)));
            },
        }
        let ghost h = write_path::after_load(e, loaded, now, old(self).options.load_retry);
        assert(self.registry@ =~= old(self).registry@.insert(name@, h));
        self.recount_entry(name);
        let ghost r = write_path::recounted(h);
        assert(self.registry@ =~= old(self).registry@.insert(name@, r));
        if let Some(alias) = reserved_alias(label_aliases) {
            return Some(Err(PutSchemaError::ReservedAlias(alias)));
        }
        let digest = match digest {
            Ok(digest) => digest,
            Err(fault) => {
                return Some(Err(PutSchemaError::Io(fault)));
            },
        };
        match self.registry.get_mut(name) {
            None => None,
            Some(entry) => {
                let stands = entry.schema.is_some() && match &entry.schema_digest {
                    Some(recorded) => same(recorded.as_str(), digest.as_str()),
                    None => false,
                };
                if stands {
                    assert(old(self).registry@.insert(name@, r).insert(name@, *entry) =~= old(self).registry@.insert(name@, r));
                    return Some(Ok(PutSchemaStep::Unchanged(installed)));
                }
                let previous_digest = state::copy_text(&entry.schema_digest);
                entry.config_revision = entry.config_revision.wrapping_add(1);
                entry.schema_digest = Some(digest);
                let sidecar = entry.sidecar(entry.stats);
                let ghost s = with_digest(r, digest);
                assert(old(self).registry@.insert(name@, r).insert(name@, s) =~= old(self).registry@.insert(name@, s));
                Some(
                    Ok(
                        PutSchemaStep::Write(
                            SchemaTicket {
                                name: name.to_owned(),
                                serial: entry.serial,
                                installed,
                                previous_digest,
                                sidecar,
                            },
                        ),
                    ),
                )
            },
        }
    }

    /// Goes on with a schema whose sidecar was written, or could not be: then
    /// the revision and the digest are as they were, but for a change that
    /// landed in between. The schema's bytes come
    /// next, reported to [`AppState::schema_written`].
    pub fn schema_sidecar_written(&mut self, ticket: &SchemaTicket, written: Result<(), IoFault>) -> (res: Result<
        (),
        PutSchemaError,
    >)
        requires
            old(self).wf(),
        ensures
            final(self).wf(),
            old(self).nonces_kept(*final(self)),
            *final(self) == (AppState { registry: final(self).registry, ..*old(self) }),
            match written {
                Ok(_) => res is Ok && final(self).registry@ == old(self).registry@,
                Err(fault) => res == Err::<(), _>(PutSchemaError::Io(fault)) && final(self).registry@ == if old(
                    self).live(ticket.name@, ticket.serial) {
                    old(self).registry@.insert(
                        ticket.name@,
                        schema_taken_back(old(self).registry@[ticket.name@], *ticket),
                    )
                } else {
                    old(self).registry@
                },
            },
    {
        match written {
            Ok(_) => Ok(()),
            Err(fault) => {
                if let Some(entry) = self.registry.get_mut(ticket.name.as_str()) {
                    if entry.serial == ticket.serial {
                        take_schema_back(entry, ticket);
                    } else {
                        assert(old(self).registry@.insert(ticket.name@, *entry) =~= old(self).registry@);
                    }
                }
                Err(PutSchemaError::Io(fault))
            },
        }
    }

    /// Ends a schema's installation. Once its bytes are in place the schema
    /// is installed and the context gets a new cache identity, so that no
    /// cached answer of before is served; the change feed announces it. Where
    /// they could not be written the revision and the digest are as they
    /// were, and the sidecar that comes back with the error is to be
    /// restored, at best effort. A change that landed in between is left
    /// alone.
    pub fn schema_written(&mut self, ticket: SchemaTicket, written: Result<(), IoFault>) -> (res: Result<
        (InstalledSchema, Option<ChangeKind>),
        (PutSchemaError, Option<MetaFile>),
    >)
        requires
            old(self).wf(),
        ensures
            final(self).wf(),
            old(self).nonces_kept(*final(self)),
            ({
                let live = old(self).live(ticket.name@, ticket.serial);
                let e = old(self).registry@[ticket.name@];
                match written {
                    Ok(_) => {
                        &&& res matches Ok(done) && done.0 == ticket.installed && done.1 is Some == live && (
                        done.1 matches Some(change) ==> change == (ChangeKind::SchemaUpdated { mode: ticket.installed.mode }))
                        &&& if live {
                            &&& *final(self) == (AppState {
                                registry: final(self).registry,
                                next_identity: old(self).next_identity.wrapping_add(1),
                                ..*old(self)
                            })
                            &&& final(self).registry@ == old(self).registry@.insert(
                                ticket.name@,
                                (Entry {
                                    schema: Some(ticket.installed),
                                    cache_identity: old(self).next_identity,
                                    ..e
                                }),
                            )
                            &&& old(self).nonces_fresh() ==> final(self).registry@[ticket.name@].cache_identity
                                != e.cache_identity
                        } else {
                            *final(self) == (AppState { registry: final(self).registry, ..*old(self) }) && final(
                                self).registry@ == old(self).registry@
                        }
                    },
                    Err(fault) => {
                        &&& *final(self) == (AppState { registry: final(self).registry, ..*old(self) })
                        &&& res is Err && res->Err_0.0 == PutSchemaError::Io(fault)
                        &&& if live {
                            let back = schema_taken_back(e, ticket);
                            &&& final(self).registry@ == old(self).registry@.insert(ticket.name@, back)
                            &&& res->Err_0.1 matches Some(file) && back.sidecar_is(back.stats, file)
                        } else {
                            res->Err_0.1 is None && final(self).registry@ == old(self).registry@
                        }
                    },
                }
            }),
    {
        let identity: u64 = self.next_identity;
        match written {
            Ok(_) => {
                let mut change: Option<ChangeKind> = None;
                if let Some(entry) = self.registry.get_mut(ticket.name.as_str()) {
                    if entry.serial == ticket.serial {
                        entry.schema = Some(ticket.installed.copy());
                        entry.cache_identity = identity;
                        self.next_identity = identity.wrapping_add(1);
                        change = Some(ChangeKind::SchemaUpdated { mode: ticket.installed.mode.clone() });
                    } else {
                        assert(old(self).registry@.insert(ticket.name@, *entry) =~= old(self).registry@);
                    }
                }
                Ok((ticket.installed, change))
            },
            Err(fault) => {
                let mut file: Option<MetaFile> = None;
                if let Some(entry) = self.registry.get_mut(ticket.name.as_str()) {
                    if entry.serial == ticket.serial {
                        take_schema_back(entry, &ticket);
                        file = Some(entry.sidecar(entry.stats));
                    } else {
                        assert(old(self).registry@.insert(ticket.name@, *entry) =~= old(self).registry@);
                    }
                }
                Err((PutSchemaError::Io(fault), file))
            },
        }
    }
}

/// The entry with its config revision moved, if something changed.
pub open spec fn bumped(e: Entry, changed: bool) -> Entry {
    if changed {
        Entry { config_revision: e.config_revision.wrapping_add(1), ..e }
    } else {
        e
    }
}

/// The entry with its config revision moved back.
pub open spec fn unbumped(e: Entry, changed: bool) -> Entry {
    if changed {
        Entry { config_revision: e.config_revision.wrapping_sub(1), ..e }
    } else {
        e
    }
}

/// The entry still holds the meta that a ticket's sidecar was written for.
pub open spec fn holds_meta(e: Entry, meta: ContextMeta) -> bool {
    e.meta.description@ == meta.description@ && e.meta.pinned == meta.pinned && e.meta.dice_floor == meta.dice_floor
        && e.meta.semantic_floor == meta.semantic_floor
}

/// The entry after a change of meta was taken back. A revision that moved on
/// since stays.
pub open spec fn meta_taken_back(e: Entry, ticket: MetaTicket) -> Entry {
    rolled_back(
        unbumped(e, ticket.changed && e.config_revision == ticket.sidecar.revision.config),
        ticket.previous,
    )
}

/// The entry still bears the digest that a ticket's sidecar was written for.
pub open spec fn holds_digest(e: Entry, digest: Option<String>) -> bool {
    match (e.schema_digest, digest) {
        (Some(a), Some(b)) => a@ == b@,
        (None, None) => true,
        _ => false,
    }
}

/// The entry after a schema was taken back: nothing if it bears another's
/// digest by now. A revision that moved on since stays.
pub open spec fn schema_taken_back(e: Entry, ticket: SchemaTicket) -> Entry {
    if !holds_digest(e, ticket.sidecar.schema_digest) {
        e
    } else if e.config_revision == ticket.sidecar.revision.config {
        without_digest(e, ticket.previous_digest)
    } else {
        Entry { schema_digest: ticket.previous_digest, ..e }
    }
}

/// Takes a schema back that could not be written.
fn take_schema_back(entry: &mut Entry, ticket: &SchemaTicket)
    ensures
        *final(entry) == schema_taken_back(*old(entry), *ticket),
{
    let mine = match (&entry.schema_digest, &ticket.sidecar.schema_digest) {
        (Some(a), Some(b)) => same(a.as_str(), b.as_str()),
        (None, None) => true,
        _ => false,
    };
    if mine {
        if entry.config_revision == ticket.sidecar.revision.config {
            entry.config_revision = entry.config_revision.wrapping_sub(1);
        }
        entry.schema_digest = state::copy_text(&ticket.previous_digest);
    }
}

/// The entry with a new schema digest, one revision on.
pub open spec fn with_digest(e: Entry, digest: String) -> Entry {
    Entry { config_revision: e.config_revision.wrapping_add(1), schema_digest: Some(digest), ..e }
}

/// The entry with an earlier schema digest, one revision back.
pub open spec fn without_digest(e: Entry, digest: Option<String>) -> Entry {
    Entry { config_revision: e.config_revision.wrapping_sub(1), schema_digest: digest, ..e }
}

/// A digest is recorded, but no schema was checked against it yet.
pub open spec fn unresolved(e: Entry) -> bool {
    e.schema is None && e.schema_digest is Some
}

/// What [`AppState::update_meta`] answers and leaves.
pub open spec fn update_meta_gate(
    was: AppState,
    now: AppState,
    name: Seq<char>,
    description: Option<String>,
    pinned: Option<bool>,
    dice_floor: Option<u64>,
    semantic_floor: Option<u64>,
    loaded: Result<LoadedGraph, String>,
    at: u64,
    res: Option<Result<MetaTicket, String>>,
) -> bool {
    let e = was.registry@[name];
    let meta = changed_meta(e.meta, description, pinned, dice_floor, semantic_floor);
    let set = with_meta(e, meta, dice_floor is Some);
    let retry = was.options.load_retry;
    if !was.registry@.contains_key(name) {
        &&& res is None
        &&& now.registry@ == was.registry@
        &&& now.resident_estimate == was.resident_estimate
        &&& now.metrics == was.metrics
    } else if meta.pinned && write_path::load_refusal(set, loaded, at, retry) is Some {
        let back = rolled_back(write_path::after_load(set, loaded, at, retry), e.meta);
        &&& res matches Some(Err(message)) && message@ == write_path::load_refusal(set, loaded, at, retry)->0
        &&& now.metrics == write_path::load_counted(was.metrics, set, loaded, at, retry)
        &&& now.registry@ == was.registry@.insert(name, write_path::recounted(back))
        &&& now.resident_estimate == write_path::estimate_after(was.resident_estimate, back)
    } else {
        let hot = if meta.pinned {
            write_path::after_load(set, loaded, at, retry)
        } else {
            set
        };
        let changed = !same_meta(meta, e.meta);
        let after = bumped(write_path::recounted(hot), changed);
        &&& now.metrics == if meta.pinned {
            write_path::load_counted(was.metrics, set, loaded, at, retry)
        } else {
            was.metrics
        }
        &&& now.registry@ == was.registry@.insert(name, after)
        &&& now.resident_estimate == write_path::estimate_after(was.resident_estimate, hot)
        &&& res matches Some(Ok(ticket)) && ticket.name@ == name && ticket.serial == e.serial && ticket.previous == e.meta
            && ticket.changed == changed && after.sidecar_is(after.stats, ticket.sidecar)
    }
}

/// What [`AppState::schema_of`] answers and leaves.
pub open spec fn schema_read(
    was: AppState,
    now: AppState,
    name: Seq<char>,
    loaded: Result<LoadedGraph, String>,
    at: u64,
    res: Option<Result<Option<InstalledSchema>, String>>,
) -> bool {
    let e = was.registry@[name];
    let retry = was.options.load_retry;
    let h = write_path::after_load(e, loaded, at, retry);
    if !was.registry@.contains_key(name) || !unresolved(e) {
        &&& res == if was.registry@.contains_key(name) {
            Some(Ok::<_, String>(e.schema))
        } else {
            None
        }
        &&& now.registry@ == was.registry@
        &&& now.resident_estimate == was.resident_estimate
        &&& now.metrics == was.metrics
    } else if let Some(text) = write_path::load_refusal(e, loaded, at, retry) {
        &&& res matches Some(Err(message)) && message@ == text
        &&& now.registry@ == was.registry@.insert(name, h)
        &&& now.resident_estimate == was.resident_estimate
        &&& now.metrics == write_path::load_counted(was.metrics, e, loaded, at, retry)
    } else {
        &&& now.metrics == write_path::load_counted(was.metrics, e, loaded, at, retry)
        &&& res == Some(Ok::<_, String>(h.schema))
        &&& now.registry@ == was.registry@.insert(name, write_path::recounted(h))
        &&& now.resident_estimate == write_path::estimate_after(was.resident_estimate, h)
    }
}

/// What a schema's state hides: the reserved label, unless the context is
/// unknown or has no schema.
pub open spec fn hides(schema: Option<Result<Option<InstalledSchema>, String>>) -> bool {
    match schema {
        None => false,
        Some(Ok(None)) => false,
        Some(Ok(Some(_))) => true,
        Some(Err(_)) => true,
    }
}

/// What [`AppState::put_schema`] answers and leaves.
pub open spec fn put_schema_gate(
    was: AppState,
    now: AppState,
    name: Seq<char>,
    installed: InstalledSchema,
    digest: Result<String, IoFault>,
    label_aliases: Map<Seq<char>, String>,
    loaded: Result<LoadedGraph, String>,
    at: u64,
    res: Option<Result<PutSchemaStep, PutSchemaError>>,
) -> bool {
    let e = was.registry@[name];
    let retry = was.options.load_retry;
    let h = write_path::after_load(e, loaded, at, retry);
    if !was.registry@.contains_key(name) {
        &&& res is None
        &&& now.registry@ == was.registry@
        &&& now.resident_estimate == was.resident_estimate
        &&& now.metrics == was.metrics
    } else if let Some(text) = write_path::load_refusal(e, loaded, at, retry) {
        &&& res matches Some(Err(PutSchemaError::Load(message))) && message@ == text
        &&& now.registry@ == was.registry@.insert(name, write_path::recounted(h))
        &&& now.resident_estimate == write_path::estimate_after(was.resident_estimate, h)
        &&& now.metrics == write_path::load_counted(was.metrics, e, loaded, at, retry)
    } else {
        let r = write_path::recounted(h);
        &&& now.metrics == write_path::load_counted(was.metrics, e, loaded, at, retry)
        &&& now.resident_estimate == write_path::estimate_after(was.resident_estimate, h)
        &&& if has_reserved_alias(label_aliases) {
            &&& res matches Some(Err(PutSchemaError::ReservedAlias(alias)))
            &&& reserved_alias_is(label_aliases, alias@)
            &&& now.registry@ == was.registry@.insert(name, r)
        } else if let Err(fault) = digest {
            &&& res == Some(Err::<PutSchemaStep, _>(PutSchemaError::Io(fault)))
            &&& now.registry@ == was.registry@.insert(name, r)
        } else if r.schema is Some && r.schema_digest is Some && r.schema_digest->0@ == digest->Ok_0@ {
            &&& res == Some(Ok::<_, PutSchemaError>(PutSchemaStep::Unchanged(installed)))
            &&& now.registry@ == was.registry@.insert(name, r)
        } else {
            let s = with_digest(r, digest->Ok_0);
            &&& now.registry@ == was.registry@.insert(name, s)
            &&& res matches Some(Ok(PutSchemaStep::Write(ticket)))
            &&& ticket.name@ == name && ticket.serial == e.serial && ticket.installed == installed
            &&& ticket.previous_digest == r.schema_digest
            &&& s.sidecar_is(s.stats, ticket.sidecar)
        }
    }
}

/// A change of meta whose sidecar could not be written leaves the context as
/// it was, but for a graph that the change had loaded.
pub proof fn failed_meta_write_changes_nothing(e: Entry, meta: ContextMeta, push_floor: bool, ticket: MetaTicket)
    requires
        e.slot matches Slot::Hot(facts) ==> facts.dice_floor == e.meta.dice_floor,
        ticket.previous == e.meta,
        ({
            let after = bumped(with_meta(e, meta, push_floor), ticket.changed);
            after.sidecar_is(after.stats, ticket.sidecar)
        }),
    ensures
        holds_meta(bumped(with_meta(e, meta, push_floor), ticket.changed), ticket.sidecar.meta),
        meta_taken_back(bumped(with_meta(e, meta, push_floor), ticket.changed), ticket) == e,
{
    assert(e.config_revision.wrapping_add(1).wrapping_sub(1) == e.config_revision);
}

/// A schema that could not be written leaves the revision and the digest as
/// they were.
pub proof fn failed_schema_write_changes_nothing(e: Entry, digest: String, ticket: SchemaTicket)
    requires
        ticket.previous_digest == e.schema_digest,
        with_digest(e, digest).sidecar_is(e.stats, ticket.sidecar),
    ensures
        schema_taken_back(with_digest(e, digest), ticket) == e,
{
    assert(e.config_revision.wrapping_add(1).wrapping_sub(1) == e.config_revision);
}

/// A write that fails late takes no other change back: a meta or a digest
/// that was set since stays, and so does a revision that moved on.
pub proof fn late_failures_take_back_nothing_else(e: Entry, schema: SchemaTicket, meta: MetaTicket)
    ensures
        !holds_digest(e, schema.sidecar.schema_digest) ==> schema_taken_back(e, schema) == e,
        e.config_revision != schema.sidecar.revision.config ==> schema_taken_back(e, schema).config_revision
            == e.config_revision,
        e.config_revision != meta.sidecar.revision.config ==> meta_taken_back(e, meta).config_revision
            == e.config_revision,
        schema_taken_back(e, schema).meta == e.meta,
        meta_taken_back(e, meta).schema_digest == e.schema_digest,
{
}

/// A schema that is installed gives its context a cache identity that
/// nothing bore before, so no key of before finds its way back.
pub proof fn installed_schema_moves_the_identity(was: AppState, now: AppState, name: Seq<char>, installed: InstalledSchema)
    requires
        was.nonces_fresh(),
        was.registry@.contains_key(name),
        now.registry@ == was.registry@.insert(
            name,
            (Entry { schema: Some(installed), cache_identity: was.next_identity, ..was.registry@[name] }),
        ),
    ensures
        now.registry@[name].cache_identity != was.registry@[name].cache_identity,
        forall|n: Seq<char>| !#[trigger] was.bears(n, now.registry@[name].cache_identity),
        forall|i: int, t: int|
            0 <= i < was.retrieval_cache@.slots.len() && 0 <= t < was.retrieval_cache@.slots[i].key.targets.len()
                ==> (#[trigger] was.retrieval_cache@.slots[i].key.targets[t]).identity
                != now.registry@[name].cache_identity,
{
    assert forall|i: int, t: int|
        0 <= i < was.retrieval_cache@.slots.len() && 0 <= t < was.retrieval_cache@.slots[i].key.targets.len() implies (
    #[trigger] was.retrieval_cache@.slots[i].key.targets[t]).identity != now.registry@[name].cache_identity by {
        assert(state::given_out(was.retrieval_cache@.slots[i].key, was.next_identity));
    }
}

/// Once a schema is installed, no alias ever stands for the reserved label:
/// the aliases that stood when it passed did not, and those that a batch adds
/// later without a conflict do not.
pub proof fn reserved_label_stays_unaliased(
    was: AppState,
    now: AppState,
    name: Seq<char>,
    installed: InstalledSchema,
    digest: Result<String, IoFault>,
    aliases: Map<Seq<char>, String>,
    loaded: Result<LoadedGraph, String>,
    at: u64,
    step: PutSchemaStep,
    added: Map<Seq<char>, String>,
)
    requires
        put_schema_gate(was, now, name, installed, digest, aliases, loaded, at, Some(Ok(step))),
        !has_reserved_alias(added),
    ensures
        !has_reserved_alias(aliases),
        !has_reserved_alias(aliases.union_prefer_right(added)),
{
    let all = aliases.union_prefer_right(added);
    assert forall|a: Seq<char>| #[trigger] all.contains_key(a) implies all[a]@ != schema_type_label() by {
        assert(added.contains_key(a) || aliases.contains_key(a));
    }
}

/// A floor between zero and one is kept as it is; one below becomes zero and
/// one above becomes one. What is not a number stays what it is.
pub proof fn floors_are_kept_between_zero_and_one(rank: u64)
    ensures
        0x8000_0000_0000_0000 <= rank <= 0xbff0_0000_0000_0000 ==> clamped(rank) == rank,
        0x000f_ffff_ffff_ffff <= rank < 0x8000_0000_0000_0000 ==> clamped(rank) == 0x8000_0000_0000_0000,
        0xbff0_0000_0000_0000 < rank <= 0xfff0_0000_0000_0000 ==> clamped(rank) == 0xbff0_0000_0000_0000,
        rank > 0xfff0_0000_0000_0000 || rank < 0x000f_ffff_ffff_ffff ==> clamped(rank) == rank,
        is_nan_rank(rank) <==> rank > 0xfff0_0000_0000_0000 || rank < 0x000f_ffff_ffff_ffff,
{
}

/// A change of meta sets what it names, floors brought into range, and keeps
/// the rest.
pub proof fn changes_touch_what_they_name(
    meta: ContextMeta,
    description: Option<String>,
    pinned: Option<bool>,
    dice_floor: Option<u64>,
    semantic_floor: Option<u64>,
)
    ensures
        ({
            let now = changed_meta(meta, description, pinned, dice_floor, semantic_floor);
            &&& description matches Some(d) ==> now.description == d
            &&& description is None ==> now.description == meta.description
            &&& pinned matches Some(p) ==> now.pinned == p
            &&& pinned is None ==> now.pinned == meta.pinned
            &&& dice_floor matches Some(f) ==> now.dice_floor == Some(clamped(f))
            &&& dice_floor is None ==> now.dice_floor == meta.dice_floor
            &&& semantic_floor matches Some(f) ==> now.semantic_floor == Some(clamped(f))
            &&& semantic_floor is None ==> now.semantic_floor == meta.semantic_floor
        }),
{
}

/// Two metas differ where any of their four fields does; a floor that is not
/// a number differs from every floor, itself too.
pub proof fn metas_are_told_apart_by_every_field(a: ContextMeta, b: ContextMeta)
    ensures
        a.description@ != b.description@ ==> !same_meta(a, b),
        a.pinned != b.pinned ==> !same_meta(a, b),
        a.dice_floor != b.dice_floor ==> !same_meta(a, b),
        a.semantic_floor != b.semantic_floor ==> !same_meta(a, b),
        a.dice_floor is Some && is_nan_rank(a.dice_floor->0) ==> !same_meta(a, b),
        a.semantic_floor is Some && is_nan_rank(a.semantic_floor->0) ==> !same_meta(a, b),
        same_meta(a, b) == same_meta(b, a),
        a == b && (a.dice_floor matches Some(f) ==> !is_nan_rank(f)) && (a.semantic_floor matches Some(f) ==> !is_nan_rank(f))
            ==> same_meta(a, b),
{
}

/// An entry takes another meta and nothing else; where a floor was set, a
/// loaded graph runs with it at once.
pub proof fn loaded_graphs_take_a_new_floor(e: Entry, meta: ContextMeta, push_floor: bool)
    ensures
        with_meta(e, meta, push_floor).meta == meta,
        push_floor ==> (with_meta(e, meta, push_floor).slot matches Slot::Hot(facts) ==> facts.dice_floor == meta.dice_floor),
        !push_floor ==> with_meta(e, meta, push_floor).slot == e.slot,
        e.slot is Cold ==> with_meta(e, meta, push_floor).slot is Cold,
        e.slot matches Slot::Hot(was) ==> (with_meta(e, meta, push_floor).slot matches Slot::Hot(facts) && (GraphFacts {
            dice_floor: was.dice_floor,
            ..facts
        }) == was),
        (Entry { meta: e.meta, slot: e.slot, ..with_meta(e, meta, push_floor) }) == e,
        rolled_back(e, meta).meta == meta,
        rolled_back(e, meta).slot matches Slot::Hot(facts) ==> facts.dice_floor == meta.dice_floor,
        (Entry { meta: e.meta, slot: e.slot, ..rolled_back(e, meta) }) == e,
{
}

/// The config revision moves by one exactly where something changed, and back
/// by one where that is taken back.
pub proof fn changes_move_the_config_revision(e: Entry, changed: bool)
    ensures
        changed && e.config_revision < u64::MAX ==> bumped(e, changed).config_revision == e.config_revision + 1,
        changed && e.config_revision > 0 ==> unbumped(e, changed).config_revision == e.config_revision - 1,
        !changed ==> bumped(e, changed) == e && unbumped(e, changed) == e,
        unbumped(bumped(e, changed), changed) == e,
        (Entry { config_revision: e.config_revision, ..bumped(e, changed) }) == e,
        (Entry { config_revision: e.config_revision, ..unbumped(e, changed) }) == e,
{
}

/// A change of meta that is taken back leaves the meta from before it, also
/// with the loaded graph, and takes the revision back exactly where the
/// change moved it and nothing has moved it since. Nothing else changes.
pub proof fn taken_back_meta_is_the_previous(e: Entry, ticket: MetaTicket)
    ensures
        ({
            let after = meta_taken_back(e, ticket);
            &&& after.meta == ticket.previous
            &&& after.slot matches Slot::Hot(facts) ==> facts.dice_floor == ticket.previous.dice_floor
            &&& ticket.changed && e.config_revision == ticket.sidecar.revision.config ==> after.config_revision
                == e.config_revision.wrapping_sub(1)
            &&& !ticket.changed || e.config_revision != ticket.sidecar.revision.config ==> after.config_revision
                == e.config_revision
            &&& (Entry { meta: e.meta, slot: e.slot, config_revision: e.config_revision, ..after }) == e
        }),
{
}

/// A schema that is taken back leaves the digest from before it, and takes
/// the revision back where nothing has moved it since; an entry that bears
/// another digest by now is left alone. Nothing else changes.
pub proof fn taken_back_schemas_leave_the_previous(e: Entry, ticket: SchemaTicket, digest: String)
    ensures
        ({
            let after = schema_taken_back(e, ticket);
            let bears = match (e.schema_digest, ticket.sidecar.schema_digest) {
                (Some(a), Some(b)) => a@ == b@,
                (Some(_), None) => false,
                (None, Some(_)) => false,
                (None, None) => true,
            };
            &&& !bears ==> after == e
            &&& bears ==> after.schema_digest == ticket.previous_digest
            &&& bears && e.config_revision == ticket.sidecar.revision.config ==> after.config_revision
                == e.config_revision.wrapping_sub(1)
            &&& bears && e.config_revision != ticket.sidecar.revision.config ==> after.config_revision == e.config_revision
            &&& (Entry { schema_digest: e.schema_digest, config_revision: e.config_revision, ..after }) == e
        }),
        with_digest(e, digest).schema_digest == Some(digest),
        with_digest(e, digest).config_revision == e.config_revision.wrapping_add(1),
        (Entry { schema_digest: e.schema_digest, config_revision: e.config_revision, ..with_digest(e, digest) }) == e,
{
}

/// An entry still holds a meta exactly where all four fields are the same.
pub proof fn metas_are_held_field_by_field(e: Entry, meta: ContextMeta)
    ensures
        holds_meta(e, e.meta),
        holds_meta(e, meta) ==> e.meta.description@ == meta.description@ && e.meta.pinned == meta.pinned,
        holds_meta(e, meta) ==> e.meta.dice_floor == meta.dice_floor && e.meta.semantic_floor == meta.semantic_floor,
        holds_meta(e, meta) ==> holds_meta(Entry { meta, ..e }, e.meta),
{
}

/// The reserved label is hidden where a schema is installed or could not be
/// read, and shown where the context is unknown or has none.
pub proof fn schemas_hide_the_reserved_label(schema: Option<Result<Option<InstalledSchema>, String>>)
    ensures
        schema is None ==> !hides(schema),
        schema matches Some(Ok(s)) ==> (hides(schema) <==> s is Some),
        schema matches Some(Err(_)) ==> hides(schema),
        schema_type_label() == "schema:type"@,
{
}

/// An alias that is reported stands for the reserved label, and no alias that
/// does comes before it in name order; one is reported wherever there is one.
pub proof fn the_first_reserved_alias_is_reported(labels: Map<Seq<char>, String>, alias: Seq<char>, other: Seq<char>)
    ensures
        reserved_alias_is(labels, alias) ==> labels.contains_key(alias) && labels[alias]@ == "schema:type"@,
        reserved_alias_is(labels, alias) && labels.contains_key(other) && labels[other]@ == "schema:type"@ && other != alias
            ==> crate::names::before(alias, other),
        reserved_alias_is(labels, alias) ==> has_reserved_alias(labels),
        labels.contains_key(other) && labels[other]@ == "schema:type"@ ==> has_reserved_alias(labels),
        has_reserved_alias(labels) ==> exists|a: Seq<char>| #[trigger]
            labels.contains_key(a) && labels[a]@ == "schema:type"@,
{
    let p = |a: Seq<char>| labels.contains_key(a) && labels[a]@ == schema_type_label();
    if reserved_alias_is(labels, alias) {
        assert(p(alias));
        assert(p(other) == (labels.contains_key(other) && labels[other]@ == schema_type_label()));
        crate::names::before_total(alias, other);
    }
}

/// A change of meta is refused only where the context is to be pinned and
/// cannot be loaded, and then leaves the meta as it was. Else the meta is the
/// changed one, and the revision moves where it says something else.
pub proof fn only_pins_that_do_not_load_are_refused(
    was: AppState,
    now: AppState,
    name: Seq<char>,
    description: Option<String>,
    pinned: Option<bool>,
    dice_floor: Option<u64>,
    semantic_floor: Option<u64>,
    loaded: Result<LoadedGraph, String>,
    at: u64,
    res: Option<Result<MetaTicket, String>>,
)
    requires
        update_meta_gate(was, now, name, description, pinned, dice_floor, semantic_floor, loaded, at, res),
    ensures
        res is None <==> !was.registry@.contains_key(name),
        res is None ==> now.registry@ == was.registry@,
        was.registry@.contains_key(name) ==> {
            let e = was.registry@[name];
            let after = now.registry@[name];
            let meta = changed_meta(e.meta, description, pinned, dice_floor, semantic_floor);
            &&& now.registry@ == was.registry@.insert(name, after)
            &&& !meta.pinned || e.slot is Hot ==> (res matches Some(Ok(_)))
            &&& !meta.pinned ==> now.metrics == was.metrics
            &&& meta.pinned && e.slot is Cold && e.load_failure is None ==> ((res matches Some(Ok(_))) <==> loaded is Ok)
            &&& res matches Some(Err(_)) ==> after.meta == e.meta && after.config_revision == e.config_revision
                && after.slot is Cold
            &&& res matches Some(Ok(ticket)) ==> {
                &&& after.meta == meta
                &&& meta.pinned ==> after.slot is Hot
                &&& after.config_revision == if same_meta(meta, e.meta) {
                    e.config_revision
                } else {
                    e.config_revision.wrapping_add(1)
                }
                &&& ticket.name@ == name && ticket.serial == e.serial && ticket.previous == e.meta
                &&& ticket.changed == !same_meta(meta, e.meta)
                &&& ticket.sidecar.meta == meta && ticket.sidecar.revision.config == after.config_revision
                &&& after.counted_bytes == if meta.pinned {
                    0
                } else {
                    after.graph_bytes()
                }
            }
        },
{
}

/// A schema is answered from memory unless only its digest is known, in which
/// case the context is loaded.
pub proof fn schemas_are_read_once(
    was: AppState,
    now: AppState,
    name: Seq<char>,
    loaded: Result<LoadedGraph, String>,
    at: u64,
    res: Option<Result<Option<InstalledSchema>, String>>,
)
    requires
        schema_read(was, now, name, loaded, at, res),
    ensures
        res is None <==> !was.registry@.contains_key(name),
        was.registry@.contains_key(name) ==> {
            let e = was.registry@[name];
            &&& e.schema is Some ==> res == Some(Ok::<_, String>(e.schema)) && now.registry@ == was.registry@
            &&& e.schema is None && e.schema_digest is None ==> res == Some(Ok::<Option<InstalledSchema>, String>(None))
                && now.registry@ == was.registry@
            &&& e.schema is None && e.schema_digest is Some && e.slot is Cold && e.load_failure is None && loaded is Ok ==> res
                == Some(Ok::<_, String>(loaded->Ok_0.schema)) && now.registry@[name].slot is Hot
            &&& e.schema is None && e.schema_digest is Some && e.slot is Cold && e.load_failure is None && loaded is Err
                ==> (res matches Some(Err(message)) && message@ == loaded->Err_0@)
        },
{
}

/// A schema is installed exactly where the context is there and loads, no
/// label stands for the reserved one, the schema can be digested, and it is
/// not the one already there; the entry then bears its digest, one revision
/// on.
pub proof fn schemas_are_installed_over_others(
    was: AppState,
    now: AppState,
    name: Seq<char>,
    installed: InstalledSchema,
    digest: Result<String, IoFault>,
    label_aliases: Map<Seq<char>, String>,
    loaded: Result<LoadedGraph, String>,
    at: u64,
    res: Option<Result<PutSchemaStep, PutSchemaError>>,
)
    requires
        put_schema_gate(was, now, name, installed, digest, label_aliases, loaded, at, res),
    ensures
        res is None <==> !was.registry@.contains_key(name),
        was.registry@.contains_key(name) && was.registry@[name].slot is Hot ==> {
            let e = was.registry@[name];
            let after = now.registry@[name];
            let aliased = exists|a: Seq<char>| #[trigger]
                label_aliases.contains_key(a) && label_aliases[a]@ == "schema:type"@;
            let there = digest is Ok && e.schema is Some && e.schema_digest is Some && e.schema_digest->0@ == digest->Ok_0@;
            &&& aliased <==> (res matches Some(Err(PutSchemaError::ReservedAlias(_))))
            &&& !aliased && digest is Err <==> (res matches Some(Err(PutSchemaError::Io(_))))
            &&& !aliased && there <==> (res matches Some(Ok(PutSchemaStep::Unchanged(_))))
            &&& !aliased && digest is Ok && !there <==> (res matches Some(Ok(PutSchemaStep::Write(_))))
            &&& res matches Some(Ok(PutSchemaStep::Write(ticket))) ==> {
                &&& after.schema_digest == Some(digest->Ok_0)
                &&& after.config_revision == e.config_revision.wrapping_add(1)
                &&& ticket.name@ == name && ticket.serial == e.serial && ticket.installed == installed
                &&& ticket.previous_digest == e.schema_digest
                &&& ticket.sidecar.schema_digest == Some(digest->Ok_0)
                &&& ticket.sidecar.revision.config == after.config_revision
            }
            &&& !(res matches Some(Ok(PutSchemaStep::Write(_)))) ==> after.schema_digest == e.schema_digest
                && after.config_revision == e.config_revision
        },
{
}

} // verus!
