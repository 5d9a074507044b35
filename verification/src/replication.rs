//! A read-only replica's in-memory half: what tailing the writer's files
//! does to the registry. Nothing here is ever written back.
use crate::groups;
use crate::groups::{repair_nesting, GroupRecord};
use crate::names::{NameMap, NameSet};
use crate::paths;
use crate::paths::name_from_stem;
use crate::retrieval;
use crate::state::{AppState, Entry, MetaFile, ReplicaInfo, Slot};
use crate::write_path;
use vstd::prelude::*;

verus! {

/// What measuring a log file gave.
#[derive(Clone, Copy, PartialEq, Eq, Structural, Debug)]
pub enum LogStat {
    /// Its length.
    Length(u64),
    /// It is not there: the one honest zero.
    Missing,
    /// It could not be measured.
    Unknown,
}

/// A log's bytes after it was measured: where that failed, the last value
/// stays.
pub open spec fn restated(stat: LogStat, last: u64) -> u64 {
    match stat {
        LogStat::Length(n) => n,
        LogStat::Missing => 0,
        LogStat::Unknown => last,
    }
}

fn restat(stat: LogStat, last: u64) -> (res: u64)
    ensures
        res == restated(stat, last),
{
    match stat {
        LogStat::Length(n) => n,
        LogStat::Missing => 0,
        LogStat::Unknown => last,
    }
}

pub open spec fn newer(a: u64, b: u64) -> u64 {
    if a < b {
        b
    } else {
        a
    }
}

fn max_of(a: u64, b: u64) -> (res: u64)
    ensures
        res == newer(a, b),
{
    if a < b {
        b
    } else {
        a
    }
}

/// An entry after its files were replaced: the sidecar's word on what it is,
/// revisions that only grow, another identity, and nothing resident.
pub open spec fn refreshed(e: Entry, file: MetaFile, identity: u64, wal: LogStat, passages_wal: LogStat) -> Entry {
    Entry {
        meta: file.meta,
        stats: file.stats,
        schema_digest: file.schema_digest,
        schema: None,
        graph_revision: newer(e.graph_revision, file.revision.graph),
        config_revision: newer(e.config_revision, file.revision.config),
        passage_revision: newer(e.passage_revision, file.revision.passages),
        cache_identity: identity,
        load_failure: None,
        wal_bytes: restated(wal, e.wal_bytes),
        passages_wal_bytes: restated(passages_wal, e.passages_wal_bytes),
        slot: Slot::Cold,
        image_generation: if e.slot is Hot {
            e.image_generation.wrapping_add(1)
        } else {
            e.image_generation
        },
        passages: None,
        bm25: None,
        bm25_dirty: false,
        passage_vectors: None,
        vectors: None,
        passages_load_failure: None,
        ..e
    }
}

/// What registering a context from its files does: nothing for a stem that
/// names nothing or a context that is there, else a cold entry with a serial
/// and an identity of its own.
pub open spec fn scan_registers(
    was: AppState,
    now: AppState,
    stem: Seq<char>,
    file: MetaFile,
    wal_bytes: u64,
    passages_wal_bytes: u64,
) -> bool {
    match paths::name_of_stem(stem) {
        None => now == was,
        Some(name) => if was.registry@.contains_key(name) {
            now == was
        } else {
            &&& now == (AppState {
                registry: now.registry,
                next_serial: was.next_serial.wrapping_add(1),
                next_identity: was.next_identity.wrapping_add(1),
                ..was
            })
            &&& exists|e: Entry|
                e.is_cold_from(was.next_serial, was.next_identity, file, wal_bytes, passages_wal_bytes) && now.registry@
                    == #[trigger] was.registry@.insert(name, e)
        },
    }
}

/// One group file that a scan found, with its record if it could be read.
pub struct ScannedGroup {
    pub name: String,
    pub record: Option<GroupRecord>,
}

pub type GroupMap = Map<Seq<char>, groups::GroupView>;

/// The records that were read, of the first `n` files.
pub open spec fn read_upto(scanned: Seq<ScannedGroup>, n: nat) -> GroupMap
    decreases n,
{
    if n == 0 {
        Map::empty()
    } else {
        let rest = read_upto(scanned, (n - 1) as nat);
        match scanned[n - 1].record {
            Some(record) => rest.insert(scanned[n - 1].name@, record@),
            None => rest,
        }
    }
}

/// The records with the previous ones of the unreadable files among the
/// first `n`.
pub open spec fn carried_upto(read: GroupMap, previous: GroupMap, scanned: Seq<ScannedGroup>, n: nat) -> GroupMap
    decreases n,
{
    if n == 0 {
        read
    } else {
        let rest = carried_upto(read, previous, scanned, (n - 1) as nat);
        let name = scanned[n - 1].name@;
        if scanned[n - 1].record is None && previous.contains_key(name) {
            rest.insert(name, previous[name])
        } else {
            rest
        }
    }
}

/// The groups without the children that are not there.
pub open spec fn without_dangling(m: GroupMap) -> GroupMap {
    m.map_values(|g: groups::GroupView| groups::GroupView { groups: g.groups.intersect(m.dom()), ..g })
}

/// The groups after a reload.
pub open spec fn reloaded(previous: GroupMap, scanned: Seq<ScannedGroup>) -> GroupMap {
    groups::repaired(without_dangling(carried_upto(read_upto(scanned, scanned.len()), previous, scanned, scanned.len())))
}

impl AppState {
    /// The writer that this registry replicates, if it is a replica.
    pub fn replica(&self) -> (res: Option<&ReplicaInfo>)
        ensures
            match res {
                Some(info) => self.replica == Some(*info),
                None => self.replica is None,
            },
    {
        match &self.replica {
            Some(info) => Some(info),
            None => None,
        }
    }

    /// Whether this registry is a read-only replica.
    pub fn is_replica(&self) -> (res: bool)
        ensures
            res == (self.replica is Some),
    {
        self.replica.is_some()
    }

    /// Registers a context whose files a scan found, cold, with the lengths
    /// of its two logs. A stem that names nothing, or a context that is there
    /// already, changes nothing.
    pub fn register_scanned(&mut self, stem: &str, file: MetaFile, wal_bytes: u64, passages_wal_bytes: u64)
        requires
            old(self).wf(),
        ensures
            final(self).wf(),
            old(self).nonces_kept(*final(self)),
            scan_registers(*old(self), *final(self), stem@, file, wal_bytes, passages_wal_bytes),
    {
        if let Some(name) = name_from_stem(stem) {
            if !self.registry.contains(name.as_str()) {
                let serial: u64 = self.next_serial;
                let identity: u64 = self.next_identity;
                self.next_serial = serial.wrapping_add(1);
                self.next_identity = identity.wrapping_add(1);
                let entry = Entry::cold_from_meta(serial, identity, file, wal_bytes, passages_wal_bytes);
                let ghost made = entry;
                self.registry.insert(name, entry);
                assert(self.registry@ == old(self).registry@.insert(name@, made));
            }
        }
    }

    /// Registers a context whose sidecar landed. A stem that names nothing,
    /// or a context that is there already, changes nothing.
    pub fn replica_register(&mut self, stem: &str, file: MetaFile)
        requires
            old(self).wf(),
        ensures
            final(self).wf(),
            old(self).nonces_kept(*final(self)),
            scan_registers(*old(self), *final(self), stem@, file, 0, 0),
    {
        self.register_scanned(stem, file, 0, 0);
    }

    /// Takes a context's replaced files in: its sidecar, and the lengths of
    /// its two logs. A context that is pinned now is to be loaded again at
    /// once: `reload` says so.
    pub fn replica_refresh(&mut self, name: &str, file: MetaFile, wal: LogStat, passages_wal: LogStat) -> (reload: bool)
        requires
            old(self).wf(),
        ensures
            final(self).wf(),
            old(self).nonces_kept(*final(self)),
            if !old(self).registry@.contains_key(name@) {
                *final(self) == *old(self) && !reload
            } else {
                let e = refreshed(old(self).registry@[name@], file, old(self).next_identity, wal, passages_wal);
                &&& *final(self) == (AppState {
                    registry: final(self).registry,
                    resident_estimate: write_path::estimate_after(old(self).resident_estimate, e),
                    next_identity: old(self).next_identity.wrapping_add(1),
                    ..*old(self)
                })
                &&& final(self).registry@ == old(self).registry@.insert(name@, write_path::recounted(e))
                &&& old(self).nonces_fresh() ==> final(self).registry@[name@].cache_identity
                    != old(self).registry@[name@].cache_identity
                &&& reload == file.meta.pinned
            },
    {
        let identity: u64 = self.next_identity;
        let reload = file.meta.pinned;
        match self.registry.get_mut(name) {
            None => {
                return false;
            },
            Some(entry) => {
                entry.meta = file.meta;
                entry.stats = file.stats;
                entry.schema_digest = file.schema_digest;
                entry.schema = None;
                entry.graph_revision = max_of(entry.graph_revision, file.revision.graph);
                entry.config_revision = max_of(entry.config_revision, file.revision.config);
                entry.passage_revision = max_of(entry.passage_revision, file.revision.passages);
                entry.cache_identity = identity;
                entry.load_failure = None;
                entry.wal_bytes = restat(wal, entry.wal_bytes);
                entry.passages_wal_bytes = restat(passages_wal, entry.passages_wal_bytes);
                if let Slot::Hot(_) = entry.slot {
                    entry.slot = Slot::Cold;
                    entry.image_generation = entry.image_generation.wrapping_add(1);
                }
                entry.passages = None;
                entry.bm25 = None;
                entry.bm25_dirty = false;
                entry.passage_vectors = None;
                entry.vectors = None;
                entry.passages_load_failure = None;
            },
        }
        self.next_identity = identity.wrapping_add(1);
        let ghost e = refreshed(old(self).registry@[name@], file, identity, wal, passages_wal);
        assert(self.registry@ == old(self).registry@.insert(name@, e));
        self.recount_entry(name);
        assert(self.registry@ =~= old(self).registry@.insert(name@, write_path::recounted(e)));
        reload
    }

    /// Deregisters a context that the writer no longer has. The groups are
    /// left alone: their own files arrive without it.
    pub fn replica_deregister(&mut self, name: &str)
        requires
            old(self).wf(),
        ensures
            final(self).wf(),
            old(self).nonces_kept(*final(self)),
            final(self).registry@ == old(self).registry@.remove(name@),
            *final(self) == (AppState {
                registry: final(self).registry,
                resident_estimate: if old(self).registry@.contains_key(name@) {
                    old(self).resident_estimate.wrapping_sub(old(self).registry@[name@].counted_bytes as i64)
                } else {
                    old(self).resident_estimate
                },
                ..*old(self)
            }),
    {
        if let Some(entry) = self.registry.remove(name) {
            self.resident_estimate = self.resident_estimate.wrapping_sub(entry.counted_bytes as i64);
        }
        assert(self.registry@ =~= old(self).registry@.remove(name@));
    }

    /// Takes the group files that a scan found in. A record that could not
    /// be read falls back to its previous version, if there is one; a child
    /// that is not there is dropped; then the nesting is repaired.
    pub fn replica_reload_groups(&mut self, scanned: Vec<ScannedGroup>)
        requires
            old(self).wf(),
            forall|i: int|
                0 <= i < scanned.len() && (#[trigger] scanned@[i]).record is Some ==> (scanned@[i].record->0).wf(),
        ensures
            final(self).wf(),
            old(self).nonces_kept(*final(self)),
            *final(self) == (AppState { groups: final(self).groups, ..*old(self) }),
            groups::group_map(final(self).groups) == reloaded(groups::group_map(old(self).groups), scanned@),
    {
        let ghost previous = groups::group_map(self.groups);
        let mut fresh: NameMap<GroupRecord> = NameMap::new();
        let mut i: usize = 0;
        assert(groups::group_map(fresh) =~= Map::empty());
        while i < scanned.len()
            invariant
                i <= scanned.len(),
                groups::groups_wf(fresh),
                forall|k: int|
                    0 <= k < scanned.len() && (#[trigger] scanned@[k]).record is Some ==> (scanned@[k].record->0).wf(),
                groups::group_map(fresh) == read_upto(scanned@, i as nat),
            decreases scanned.len() - i,
        {
            if let Some(record) = &scanned[i].record {
                let copied = record.copy();
                let ghost was = groups::group_map(fresh);
                let name = scanned[i].name.clone();
                fresh.insert(name, copied);
                assert(groups::group_map(fresh) =~= was.insert(name@, copied@));
            }
            i = i + 1;
        }
        let ghost read = groups::group_map(fresh);
        i = 0;
        while i < scanned.len()
            invariant
                i <= scanned.len(),
                self.wf(),
                *self == *old(self),
                previous == groups::group_map(self.groups),
                groups::groups_wf(fresh),
                groups::group_map(fresh) == carried_upto(read, previous, scanned@, i as nat),
            decreases scanned.len() - i,
        {
            if scanned[i].record.is_none() {
                if let Some(record) = self.groups.get(scanned[i].name.as_str()) {
                    let copied = record.copy();
                    let ghost was = groups::group_map(fresh);
                    let name = scanned[i].name.clone();
                    fresh.insert(name, copied);
                    assert(groups::group_map(fresh) =~= was.insert(name@, copied@));
                }
            }
            i = i + 1;
        }
        drop_dangling(&mut fresh);
        self.groups = repair_nesting(fresh);
    }
}

/// The names of a set that a map knows.
pub fn known_names<V>(names: &NameSet, known: &NameMap<V>) -> (res: NameSet)
    requires
        names.wf(),
        known.wf(),
    ensures
        res.wf(),
        res@ == names@.intersect(known@.dom()),
{
    let mut res = names.copy();
    let n: usize = names.len();
    let mut i: usize = 0;
    let ghost order = names.order();
    proof {
        names.order_is_members();
    }
    while i < n
        invariant
            names.wf(),
            known.wf(),
            res.wf(),
            order == names.order(),
            n == order.len(),
            i <= n,
            forall|k: Seq<char>| #[trigger] res@.contains(k) ==> names@.contains(k),
            forall|j: int| 0 <= j < i ==> res@.contains(#[trigger] order[j]) == known@.contains_key(order[j]),
            forall|j: int| i <= j < n ==> res@.contains(#[trigger] order[j]),
            crate::names::ascending(order),
        decreases n - i,
    {
        let name = names.at(i);
        if !known.contains(name.as_str()) {
            res.remove(name.as_str());
        }
        proof {
            assert forall|j: int| 0 <= j < n && j != i implies #[trigger] order[j] != order[i as int] by {
                crate::names::before_irreflexive(order[i as int]);
                if j < i {
                    assert(crate::names::before(order[j], order[i as int]));
                } else {
                    assert(crate::names::before(order[i as int], order[j]));
                }
            }
        }
        i = i + 1;
    }
    proof {
        assert forall|k: Seq<char>| res@.contains(k) == names@.intersect(known@.dom()).contains(k) by {
            names.order_is_members();
            if names@.contains(k) {
                assert(order.contains(k));
                let j = choose|j: int| 0 <= j < order.len() && order[j] == k;
                assert(res@.contains(order[j]) == known@.contains_key(order[j]));
            }
        }
        assert(res@ =~= names@.intersect(known@.dom()));
    }
    res
}

/// Drops every child that is not a group.
pub fn drop_dangling(groups: &mut NameMap<GroupRecord>)
    requires
        groups::groups_wf(*old(groups)),
    ensures
        groups::groups_wf(*final(groups)),
        groups::group_map(*final(groups)) == without_dangling(groups::group_map(*old(groups))),
{
    let ghost m = groups::group_map(*groups);
    let ghost goal = without_dangling(m);
    let ghost order = groups.order();
    let n: usize = groups.len();
    let mut i: usize = 0;
    proof {
        groups.order_is_domain();
    }
    while i < n
        invariant
            groups::groups_wf(*groups),
            order == groups.order(),
            n == order.len(),
            i <= n,
            goal == without_dangling(m),
            groups@.dom() == m.dom(),
            forall|j: int| 0 <= j < n ==> m.contains_key(#[trigger] order[j]),
            forall|j: int| 0 <= j < i ==> groups@[#[trigger] order[j]]@ == goal[order[j]],
            forall|j: int| i <= j < n ==> groups@[#[trigger] order[j]]@ == m[order[j]],
            crate::names::ascending(order),
        decreases n - i,
    {
        let kept = known_names(&groups.value_at(i).groups, groups);
        let ghost was = groups@;
        let record = groups.value_at_mut(i);
        record.groups = kept;
        proof {
            assert forall|j: int| 0 <= j < n && j != i implies #[trigger] order[j] != order[i as int] by {
                crate::names::before_irreflexive(order[i as int]);
                if j < i {
                    assert(crate::names::before(order[j], order[i as int]));
                } else {
                    assert(crate::names::before(order[i as int], order[j]));
                }
            }
            assert(groups@.dom() =~= was.dom());
            assert(groups@[order[i as int]]@ == goal[order[i as int]]);
        }
        i = i + 1;
    }
    proof {
        groups.order_is_domain();
        assert forall|k: Seq<char>| goal.contains_key(k) implies groups::group_map(*groups)[k] == goal[k] by {
            assert(order.contains(k));
            let j = choose|j: int| 0 <= j < order.len() && order[j] == k;
            assert(groups@[order[j]]@ == goal[order[j]]);
        }
        assert(groups::group_map(*groups) =~= goal);
    }
}

/// A refresh never walks a revision back, so a replica's readers never see a
/// context go back in time.
pub proof fn refresh_never_walks_back(e: Entry, file: MetaFile, identity: u64, wal: LogStat, passages_wal: LogStat)
    ensures
        refreshed(e, file, identity, wal, passages_wal).graph_revision >= e.graph_revision,
        refreshed(e, file, identity, wal, passages_wal).passage_revision >= e.passage_revision,
        refreshed(e, file, identity, wal, passages_wal).config_revision >= e.config_revision,
{
}

/// A refresh moves every cache key of the context, also where no revision
/// moved: what was filed before is not found under the new one.
pub proof fn refresh_moves_every_key(
    was: AppState,
    now: AppState,
    name: Seq<char>,
    file: MetaFile,
    wal: LogStat,
    passages_wal: LogStat,
    op: crate::retrieval_cache::RetrievalCacheOp,
)
    requires
        was.nonces_fresh(),
        was.registry@.contains_key(name),
        now.registry@ == was.registry@.insert(
            name,
            write_path::recounted(refreshed(was.registry@[name], file, was.next_identity, wal, passages_wal)),
        ),
    ensures
        now.registry@[name].cache_identity != was.registry@[name].cache_identity,
        retrieval::fingerprint(now, op, name) != retrieval::fingerprint(was, op, name),
        forall|n: Seq<char>| !#[trigger] was.bears(n, now.registry@[name].cache_identity),
{
}

/// After a reload no child dangles and the nesting fits, whatever the files
/// held.
pub proof fn reloaded_groups_are_sound(previous: GroupMap, scanned: Seq<ScannedGroup>)
    requires
        forall|n: Seq<char>| #[trigger] previous.contains_key(n) ==> previous[n].groups.finite(),
        forall|i: int|
            0 <= i < scanned.len() && (#[trigger] scanned[i]).record is Some ==> (scanned[i].record->0)@.groups.finite(),
    ensures
        groups::nesting_fits(reloaded(previous, scanned)),
        forall|n: Seq<char>| #[trigger]
            reloaded(previous, scanned).contains_key(n) ==> reloaded(previous, scanned)[n].groups.subset_of(
                reloaded(previous, scanned).dom(),
            ),
{
    let n = scanned.len();
    let read = read_upto(scanned, n);
    let carried = carried_upto(read, previous, scanned, n);
    let m = without_dangling(carried);
    read_is_finite(scanned, n);
    carried_is_finite(read, previous, scanned, n);
    groups::repaired_nesting_fits(m);
    assert(m.dom() =~= carried.dom());
    groups::repair_only_drops_edges(m);
    let r = reloaded(previous, scanned);
    assert forall|g: Seq<char>| #[trigger] r.contains_key(g) implies r[g].groups.subset_of(r.dom()) by {
        assert(m.contains_key(g));
        assert(m[g].groups.subset_of(m.dom()));
    }
}

proof fn read_is_finite(scanned: Seq<ScannedGroup>, n: nat)
    requires
        n <= scanned.len(),
        forall|i: int|
            0 <= i < scanned.len() && (#[trigger] scanned[i]).record is Some ==> (scanned[i].record->0)@.groups.finite(),
    ensures
        read_upto(scanned, n).dom().finite(),
        forall|g: Seq<char>| #[trigger] read_upto(scanned, n).contains_key(g) ==> read_upto(scanned, n)[g].groups.finite(),
    decreases n,
{
    if n > 0 {
        read_is_finite(scanned, (n - 1) as nat);
        assert(scanned[n - 1].record is Some ==> (scanned[n - 1].record->0)@.groups.finite());
    }
}

proof fn carried_is_finite(read: GroupMap, previous: GroupMap, scanned: Seq<ScannedGroup>, n: nat)
    requires
        n <= scanned.len(),
        read.dom().finite(),
        forall|g: Seq<char>| #[trigger] read.contains_key(g) ==> read[g].groups.finite(),
        forall|g: Seq<char>| #[trigger] previous.contains_key(g) ==> previous[g].groups.finite(),
    ensures
        carried_upto(read, previous, scanned, n).dom().finite(),
        forall|g: Seq<char>| #[trigger]
            carried_upto(read, previous, scanned, n).contains_key(g) ==> carried_upto(
                read,
                previous,
                scanned,
                n,
            )[g].groups.finite(),
    decreases n,
{
    if n > 0 {
        carried_is_finite(read, previous, scanned, (n - 1) as nat);
    }
}

/// A log is as long as it was measured; one that is missing has no bytes, and
/// one that could not be measured keeps its last length.
pub proof fn logs_are_restated(stat: LogStat, last: u64)
    ensures
        stat matches LogStat::Length(n) ==> restated(stat, last) == n,
        stat is Missing ==> restated(stat, last) == 0,
        stat is Unknown ==> restated(stat, last) == last,
{
}

/// A context whose files were replaced says what the new sidecar says, at
/// revisions that are at least its own and the file's; it is cold, holds
/// nothing else in memory, and forgets earlier failures. Its own uses, its
/// sizes on disk and its marks stay.
pub proof fn refreshed_contexts_follow_their_files(
    e: Entry,
    file: MetaFile,
    identity: u64,
    wal: LogStat,
    passages_wal: LogStat,
)
    ensures
        ({
            let after = refreshed(e, file, identity, wal, passages_wal);
            &&& after.meta == file.meta && after.stats == file.stats && after.schema_digest == file.schema_digest
            &&& after.graph_revision >= e.graph_revision && after.graph_revision >= file.revision.graph && (
            after.graph_revision == e.graph_revision || after.graph_revision == file.revision.graph)
            &&& after.config_revision >= e.config_revision && after.config_revision >= file.revision.config && (
            after.config_revision == e.config_revision || after.config_revision == file.revision.config)
            &&& after.passage_revision >= e.passage_revision && after.passage_revision >= file.revision.passages && (
            after.passage_revision == e.passage_revision || after.passage_revision == file.revision.passages)
            &&& after.cache_identity == identity
            &&& after.slot is Cold && after.schema is None && after.cache_bytes() == 0
            &&& after.load_failure is None && after.passages_load_failure is None && !after.bm25_dirty
            &&& after.wal_bytes == restated(wal, e.wal_bytes) && after.passages_wal_bytes == restated(
                passages_wal,
                e.passages_wal_bytes,
            )
            &&& e.slot is Hot ==> after.image_generation == e.image_generation.wrapping_add(1)
            &&& e.slot is Cold ==> after.image_generation == e.image_generation
            &&& after.serial == e.serial && after.wal_seq == e.wal_seq && after.counted_bytes == e.counted_bytes
            &&& after.usage == e.usage && after.usage_dirty == e.usage_dirty && after.dirty == e.dirty
            &&& after.flushing == e.flushing && after.saving == e.saving && after.last_touch == e.last_touch
            &&& after.disk == e.disk && after.passages_embed_dirty == e.passages_embed_dirty
        }),
{
}

/// A scan registers a context for a stem that names one that is not there
/// yet, cold, under a serial and an identity of its own; it leaves every
/// other context as it was.
pub proof fn scans_register_what_is_new(
    was: AppState,
    now: AppState,
    stem: Seq<char>,
    file: MetaFile,
    wal_bytes: u64,
    passages_wal_bytes: u64,
    name: Seq<char>,
    other: Seq<char>,
)
    requires
        scan_registers(was, now, stem, file, wal_bytes, passages_wal_bytes),
    ensures
        paths::name_of_stem(stem) is None ==> now == was,
        paths::name_of_stem(stem) == Some(name) && was.registry@.contains_key(name) ==> now == was,
        paths::name_of_stem(stem) == Some(name) && !was.registry@.contains_key(name) ==> {
            let e = now.registry@[name];
            &&& now.registry@.contains_key(name)
            &&& e.serial == was.next_serial && e.cache_identity == was.next_identity
            &&& now.next_serial == was.next_serial.wrapping_add(1) && now.next_identity == was.next_identity.wrapping_add(1)
            &&& e.slot is Cold && e.meta == file.meta && e.stats == file.stats && e.usage == file.usage
            &&& e.graph_revision == file.revision.graph && e.passage_revision == file.revision.passages && e.config_revision
                == file.revision.config
            &&& e.wal_bytes == wal_bytes && e.passages_wal_bytes == passages_wal_bytes
        },
        paths::name_of_stem(stem) != Some(other) ==> now.registry@.contains_key(other) == was.registry@.contains_key(other)
            && now.registry@[other] == was.registry@[other],
{
}

proof fn read_is(scanned: Seq<ScannedGroup>, n: nat, name: Seq<char>, i: int)
    requires
        n <= scanned.len(),
        forall|a: int, b: int|
            0 <= a < b < scanned.len() ==> (#[trigger] scanned[a]).name@ != (#[trigger] scanned[b]).name@,
    ensures
        0 <= i < n && scanned[i].record is Some ==> read_upto(scanned, n).contains_key(scanned[i].name@) && read_upto(
            scanned,
            n,
        )[scanned[i].name@] == (scanned[i].record->0)@,
        0 <= i < n && scanned[i].record is None ==> !read_upto(scanned, n).contains_key(scanned[i].name@),
        (forall|j: int| 0 <= j < n ==> (#[trigger] scanned[j]).name@ != name) ==> !read_upto(scanned, n).contains_key(name),
    decreases n,
{
    if n > 0 {
        let m = (n - 1) as nat;
        read_is(scanned, m, name, i);
        if 0 <= i < m {
            assert(scanned[i].name@ != scanned[m as int].name@);
        }
        if i == m {
            let last = scanned[m as int].name@;
            assert forall|j: int| 0 <= j < m implies (#[trigger] scanned[j]).name@ != last by {}
            read_is(scanned, m, last, i);
        }
        if forall|j: int| 0 <= j < n ==> (#[trigger] scanned[j]).name@ != name {
            assert(scanned[m as int].name@ != name);
        }
    }
}

proof fn carried_is(read: GroupMap, previous: GroupMap, scanned: Seq<ScannedGroup>, n: nat, name: Seq<char>, i: int)
    requires
        n <= scanned.len(),
        forall|a: int, b: int|
            0 <= a < b < scanned.len() ==> (#[trigger] scanned[a]).name@ != (#[trigger] scanned[b]).name@,
    ensures
        ({
            let after = carried_upto(read, previous, scanned, n);
            &&& 0 <= i < n && scanned[i].record is None && previous.contains_key(scanned[i].name@) ==> after.contains_key(
                scanned[i].name@,
            ) && after[scanned[i].name@] == previous[scanned[i].name@]
            &&& 0 <= i < scanned.len() && (i >= n || scanned[i].record is Some || !previous.contains_key(scanned[i].name@))
                ==> after.contains_key(scanned[i].name@) == read.contains_key(scanned[i].name@) && after[scanned[i].name@]
                == read[scanned[i].name@]
            &&& (forall|j: int| 0 <= j < n ==> (#[trigger] scanned[j]).name@ != name) ==> after.contains_key(name)
                == read.contains_key(name)
        }),
    decreases n,
{
    if n > 0 {
        let m = (n - 1) as nat;
        carried_is(read, previous, scanned, m, name, i);
        if 0 <= i < scanned.len() && i != m {
            assert(scanned[i].name@ != scanned[m as int].name@);
        }
        if forall|j: int| 0 <= j < n ==> (#[trigger] scanned[j]).name@ != name {
            assert(scanned[m as int].name@ != name);
        }
    }
}

/// A reload takes every group whose file could be read as it was read, keeps
/// the last that was known of one whose file could not be, and forgets every
/// group that has no file.
pub proof fn reloads_keep_unreadable_groups(
    previous: GroupMap,
    scanned: Seq<ScannedGroup>,
    name: Seq<char>,
    i: int,
)
    requires
        forall|a: int, b: int|
            0 <= a < b < scanned.len() ==> (#[trigger] scanned[a]).name@ != (#[trigger] scanned[b]).name@,
    ensures
        ({
            let after = carried_upto(read_upto(scanned, scanned.len()), previous, scanned, scanned.len());
            &&& 0 <= i < scanned.len() && scanned[i].record is Some ==> after.contains_key(scanned[i].name@)
                && after[scanned[i].name@] == (scanned[i].record->0)@
            &&& 0 <= i < scanned.len() && scanned[i].record is None && previous.contains_key(scanned[i].name@)
                ==> after.contains_key(scanned[i].name@) && after[scanned[i].name@] == previous[scanned[i].name@]
            &&& 0 <= i < scanned.len() && scanned[i].record is None && !previous.contains_key(scanned[i].name@)
                ==> !after.contains_key(scanned[i].name@)
            &&& (forall|j: int| 0 <= j < scanned.len() ==> (#[trigger] scanned[j]).name@ != name) ==> !after.contains_key(name)
        }),
{
    read_is(scanned, scanned.len(), name, i);
    carried_is(read_upto(scanned, scanned.len()), previous, scanned, scanned.len(), name, i);
}

/// Children that are not groups go; every other child, every member and every
/// description stays.
pub proof fn only_dangling_children_go(m: GroupMap, g: Seq<char>, n: Seq<char>)
    ensures
        without_dangling(m).contains_key(g) == m.contains_key(g),
        m.contains_key(g) ==> {
            let now = without_dangling(m)[g];
            &&& now.groups.contains(n) <==> m[g].groups.contains(n) && m.contains_key(n)
            &&& now.contexts == m[g].contexts
            &&& now.description == m[g].description
        },
{
}

} // verus!
