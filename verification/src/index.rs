//! The keyword index's residency: when it is built, when a saved one is
//! repaired, and what has to be saved again.
use crate::names;
use crate::names::NameMap;
use crate::picking;
use crate::state::{AppState, Entry};
use vstd::prelude::*;

verus! {

/// What is to be done before a context's keyword index can be searched.
#[derive(Clone, Copy, PartialEq, Eq, Structural, Debug)]
pub enum IndexStep {
    /// The resident index serves.
    Ready,
    /// The time ran out before a build could start; the index stays as it
    /// was.
    Expired,
    /// The resident index holds too much that was removed: build a fresh one
    /// from the store.
    Rebuild,
    /// There is none in memory: load the saved one and repair it, or build
    /// one from the store.
    LoadOrBuild,
}

/// What brings a saved index up to the store.
pub struct IndexRepair {
    /// Sources to index anew.
    pub upsert: Vec<String>,
    /// Sources to drop.
    pub remove: Vec<String>,
}

/// The source's digest in the saved index is not that of its record.
pub open spec fn drifted(disk: Map<Seq<char>, u64>, records: Map<Seq<char>, u64>, source: Seq<char>) -> bool {
    records.contains_key(source) && !(disk.contains_key(source) && disk[source] == records[source])
}

/// The sources among the first `n` names that drifted, in order.
pub open spec fn drifted_upto(disk: Map<Seq<char>, u64>, records: Map<Seq<char>, u64>, order: Seq<Seq<char>>, n: nat) -> Seq<
    Seq<char>,
>
    decreases n,
{
    if n == 0 {
        Seq::empty()
    } else {
        let rest = drifted_upto(disk, records, order, (n - 1) as nat);
        if drifted(disk, records, order[n - 1]) {
            rest.push(order[n - 1])
        } else {
            rest
        }
    }
}

/// The names among the first `n` that have no record, in order.
pub open spec fn orphans_upto(records: Map<Seq<char>, u64>, order: Seq<Seq<char>>, n: nat) -> Seq<Seq<char>>
    decreases n,
{
    if n == 0 {
        Seq::empty()
    } else {
        let rest = orphans_upto(records, order, (n - 1) as nat);
        if records.contains_key(order[n - 1]) {
            rest
        } else {
            rest.push(order[n - 1])
        }
    }
}

/// What brings a saved index up to the store, source by source and in both
/// directions: `disk` holds the digests that the saved index was made from,
/// `records` those of the store.
pub fn index_drift(disk: &NameMap<u64>, records: &NameMap<u64>) -> (res: IndexRepair)
    requires
        disk.wf(),
        records.wf(),
    ensures
        names::views(res.upsert@) == drifted_upto(
            disk@,
            records@,
            names::in_order(records@.dom()),
            names::in_order(records@.dom()).len(),
        ),
        names::views(res.remove@) == orphans_upto(
            records@,
            names::in_order(disk@.dom()),
            names::in_order(disk@.dom()).len(),
        ),
{
    let mut upsert: Vec<String> = Vec::new();
    let ghost order = records.order();
    let n: usize = records.len();
    let mut i: usize = 0;
    proof {
        records.order_is_domain();
        disk.order_is_domain();
    }
    assert(names::views(upsert@) =~= Seq::empty());
    while i < n
        invariant
            disk.wf(),
            records.wf(),
            order == records.order(),
            n == order.len(),
            i <= n,
            names::views(upsert@) == drifted_upto(disk@, records@, order, i as nat),
        decreases n - i,
    {
        let source = records.key_at(i);
        let digest: u64 = *records.value_at(i);
        let current = match disk.get(source.as_str()) {
            Some(saved) => *saved == digest,
            None => false,
        };
        if !current {
            let ghost was = upsert@;
            upsert.push(source.clone());
            assert(names::views(upsert@) =~= names::views(was).push(source@));
        }
        i = i + 1;
    }
    let mut remove: Vec<String> = Vec::new();
    let ghost saved = disk.order();
    let m: usize = disk.len();
    let mut j: usize = 0;
    assert(names::views(remove@) =~= Seq::empty());
    while j < m
        invariant
            disk.wf(),
            records.wf(),
            saved == disk.order(),
            m == saved.len(),
            j <= m,
            names::views(remove@) == orphans_upto(records@, saved, j as nat),
        decreases m - j,
    {
        let source = disk.key_at(j);
        if !records.contains(source.as_str()) {
            let ghost was = remove@;
            remove.push(source.clone());
            assert(names::views(remove@) =~= names::views(was).push(source@));
        }
        j = j + 1;
    }
    IndexRepair { upsert, remove }
}

impl IndexRepair {
    /// Whether the saved index was as the store is.
    pub fn is_empty(&self) -> (res: bool)
        ensures
            res == (self.upsert.len() == 0 && self.remove.len() == 0),
    {
        self.upsert.len() == 0 && self.remove.len() == 0
    }
}

/// What an index that was made ready came from.
#[derive(Clone, Copy, PartialEq, Eq, Structural, Debug)]
pub enum IndexOrigin {
    /// It was built from the store.
    Built,
    /// It was loaded; `repaired` says whether anything had to be changed.
    Loaded { repaired: bool },
}

/// The entry once its index is in memory. An index that the saved file does
/// not hold yet is marked for saving.
pub open spec fn indexed(e: Entry, footprint: u64, origin: IndexOrigin) -> Entry {
    Entry {
        bm25: Some(footprint),
        bm25_dirty: match origin {
            IndexOrigin::Built => true,
            IndexOrigin::Loaded { repaired } => e.bm25_dirty || repaired,
        },
        ..e
    }
}

impl AppState {
    /// What is to be done before a context's keyword index can be searched.
    /// `needs_reclaim` is what the resident index says of itself; `expired`
    /// says that the time ran out. `None` means that there is no such
    /// context.
    pub fn ensure_bm25_index(&self, name: &str, needs_reclaim: bool, expired: bool) -> (res: Option<IndexStep>)
        requires
            self.wf(),
        ensures
            res == if !self.registry@.contains_key(name@) {
                None
            } else if self.registry@[name@].bm25 is Some && !needs_reclaim {
                Some(IndexStep::Ready)
            } else if expired {
                Some(IndexStep::Expired)
            } else if self.registry@[name@].bm25 is Some {
                Some(IndexStep::Rebuild)
            } else {
                Some(IndexStep::LoadOrBuild)
            },
    {
        match self.registry.get(name) {
            None => None,
            Some(entry) => {
                let resident = entry.bm25.is_some();
                if resident && !needs_reclaim {
                    Some(IndexStep::Ready)
                } else if expired {
                    Some(IndexStep::Expired)
                } else if resident {
                    Some(IndexStep::Rebuild)
                } else {
                    Some(IndexStep::LoadOrBuild)
                }
            },
        }
    }

    /// Takes a ready index in, with its resident bytes.
    pub fn bm25_ready(&mut self, name: &str, serial: u64, footprint: u64, origin: IndexOrigin)
        requires
            old(self).wf(),
        ensures
            final(self).wf(),
            old(self).nonces_kept(*final(self)),
            *final(self) == (AppState { registry: final(self).registry, ..*old(self) }),
            final(self).registry@ == if old(self).live(name@, serial) {
                old(self).registry@.insert(name@, indexed(old(self).registry@[name@], footprint, origin))
            } else {
                old(self).registry@
            },
    {
        if let Some(entry) = self.registry.get_mut(name) {
            if entry.serial == serial {
                entry.bm25 = Some(footprint);
                match origin {
                    IndexOrigin::Built => {
                        entry.bm25_dirty = true;
                    },
                    IndexOrigin::Loaded { repaired } => {
                        if repaired {
                            entry.bm25_dirty = true;
                        }
                    },
                }
            } else {
                assert(old(self).registry@.insert(name@, *entry) =~= old(self).registry@);
            }
        }
    }
}

/// The digests of an index after a repair.
pub open spec fn repaired_digests(disk: Map<Seq<char>, u64>, records: Map<Seq<char>, u64>, upsert: Set<Seq<char>>, remove: Set<Seq<char>>) -> Map<
    Seq<char>,
    u64,
> {
    Map::new(
        |s: Seq<char>| upsert.contains(s) || (disk.contains_key(s) && !remove.contains(s)),
        |s: Seq<char>| if upsert.contains(s) {
            records[s]
        } else {
            disk[s]
        },
    )
}

/// After a repair the index was made from exactly what the store holds, and
/// nothing that was current was indexed anew.
pub proof fn repair_reaches_the_store(disk: Map<Seq<char>, u64>, records: Map<Seq<char>, u64>)
    requires
        disk.dom().finite(),
        records.dom().finite(),
    ensures
        ({
            let order = names::in_order(records.dom());
            let saved = names::in_order(disk.dom());
            let upsert = drifted_upto(disk, records, order, order.len()).to_set();
            let remove = orphans_upto(records, saved, saved.len()).to_set();
            &&& repaired_digests(disk, records, upsert, remove) == records
            &&& forall|s: Seq<char>| #[trigger] upsert.contains(s) ==> drifted(disk, records, s)
        }),
{
    let order = names::in_order(records.dom());
    let saved = names::in_order(disk.dom());
    names::in_order_of_finite(records.dom());
    names::in_order_of_finite(disk.dom());
    let up = drifted_upto(disk, records, order, order.len());
    let down = orphans_upto(records, saved, saved.len());
    drifted_are(disk, records, order, order.len());
    orphans_are(records, saved, saved.len());
    assert forall|s: Seq<char>| order.contains(s) == records.contains_key(s) by {
        assert(order.to_set().contains(s) == records.dom().contains(s));
    }
    assert forall|s: Seq<char>| saved.contains(s) == disk.contains_key(s) by {
        assert(saved.to_set().contains(s) == disk.dom().contains(s));
    }
    assert(order.take(order.len() as int) =~= order);
    assert(saved.take(saved.len() as int) =~= saved);
    assert(repaired_digests(disk, records, up.to_set(), down.to_set()) =~= records);
}

proof fn drifted_are(disk: Map<Seq<char>, u64>, records: Map<Seq<char>, u64>, order: Seq<Seq<char>>, n: nat)
    requires
        n <= order.len(),
    ensures
        forall|s: Seq<char>| #[trigger]
            drifted_upto(disk, records, order, n).contains(s) <==> order.take(n as int).contains(s) && drifted(
                disk,
                records,
                s,
            ),
    decreases n,
{
    if n > 0 {
        let m = (n - 1) as nat;
        drifted_are(disk, records, order, m);
        let rest = drifted_upto(disk, records, order, m);
        let now = drifted_upto(disk, records, order, n);
        assert forall|s: Seq<char>| #[trigger] now.contains(s) <==> order.take(n as int).contains(s) && drifted(
            disk,
            records,
            s,
        ) by {
            pushed_contains(order.take(m as int), order[m as int], s);
            assert(order.take(n as int) =~= order.take(m as int).push(order[m as int]));
            pushed_contains(rest, order[m as int], s);
            assert(rest.contains(s) <==> order.take(m as int).contains(s) && drifted(disk, records, s));
        }
    }
}

proof fn orphans_are(records: Map<Seq<char>, u64>, order: Seq<Seq<char>>, n: nat)
    requires
        n <= order.len(),
    ensures
        forall|s: Seq<char>| #[trigger]
            orphans_upto(records, order, n).contains(s) <==> order.take(n as int).contains(s) && !records.contains_key(s),
    decreases n,
{
    if n > 0 {
        let m = (n - 1) as nat;
        orphans_are(records, order, m);
        let rest = orphans_upto(records, order, m);
        let now = orphans_upto(records, order, n);
        assert forall|s: Seq<char>| #[trigger] now.contains(s) <==> order.take(n as int).contains(s)
            && !records.contains_key(s) by {
            pushed_contains(order.take(m as int), order[m as int], s);
            assert(order.take(n as int) =~= order.take(m as int).push(order[m as int]));
            pushed_contains(rest, order[m as int], s);
            assert(rest.contains(s) <==> order.take(m as int).contains(s) && !records.contains_key(s));
        }
    }
}

proof fn pushed_contains(s: Seq<Seq<char>>, x: Seq<char>, y: Seq<char>)
    ensures
        s.push(x).contains(y) <==> s.contains(y) || x == y,
{
    if s.contains(y) {
        let i = choose|i: int| 0 <= i < s.len() && s[i] == y;
        assert(s.push(x)[i] == y);
    }
    if x == y {
        assert(s.push(x)[s.len() as int] == y);
    }
    if s.push(x).contains(y) {
        let i = choose|i: int| 0 <= i < s.push(x).len() && s.push(x)[i] == y;
        if i < s.len() {
            assert(s[i] == y);
        }
    }
}

/// A repair writes exactly the records that the saved index does not hold as
/// they are, in order. What is returned is where each stands.
pub proof fn repairs_write_what_drifted(
    disk: Map<Seq<char>, u64>,
    records: Map<Seq<char>, u64>,
    order: Seq<Seq<char>>,
    n: nat,
) -> (at: Seq<int>)
    requires
        n <= order.len(),
    ensures
        picking::picks(
            order,
            n,
            |i: int|
                records.contains_key(order[i]) && (!disk.contains_key(order[i]) || disk[order[i]] != records[order[i]]),
            drifted_upto(disk, records, order, n),
            at,
        ),
    decreases n,
{
    let p = |i: int|
        records.contains_key(order[i]) && (!disk.contains_key(order[i]) || disk[order[i]] != records[order[i]]);
    if n == 0 {
        Seq::empty()
    } else {
        let m = (n - 1) as nat;
        let before = repairs_write_what_drifted(disk, records, order, m);
        picking::picks_on(order, m, p, drifted_upto(disk, records, order, m), before, drifted_upto(disk, records, order, n));
        picking::and_next(before, m, p(m as int))
    }
}

/// A repair drops exactly the names that have no record, in order. What is
/// returned is where each stands.
pub proof fn repairs_drop_what_has_no_record(records: Map<Seq<char>, u64>, order: Seq<Seq<char>>, n: nat) -> (at: Seq<int>)
    requires
        n <= order.len(),
    ensures
        picking::picks(order, n, |i: int| !records.contains_key(order[i]), orphans_upto(records, order, n), at),
    decreases n,
{
    let p = |i: int| !records.contains_key(order[i]);
    if n == 0 {
        Seq::empty()
    } else {
        let m = (n - 1) as nat;
        let before = repairs_drop_what_has_no_record(records, order, m);
        picking::picks_on(order, m, p, orphans_upto(records, order, m), before, orphans_upto(records, order, n));
        picking::and_next(before, m, p(m as int))
    }
}

/// An index that came into memory is counted by its own size; it is marked
/// for saving where it was built or repaired, and keeps its mark where it was
/// only read. Nothing else of the entry changes.
pub proof fn indexes_are_marked_by_their_origin(e: Entry, footprint: u64, origin: IndexOrigin)
    ensures
        indexed(e, footprint, origin).bm25 == Some(footprint),
        origin is Built ==> indexed(e, footprint, origin).bm25_dirty,
        origin == (IndexOrigin::Loaded { repaired: true }) ==> indexed(e, footprint, origin).bm25_dirty,
        origin == (IndexOrigin::Loaded { repaired: false }) ==> indexed(e, footprint, origin).bm25_dirty == e.bm25_dirty,
        (Entry { bm25: e.bm25, bm25_dirty: e.bm25_dirty, ..indexed(e, footprint, origin) }) == e,
{
}

} // verus!
