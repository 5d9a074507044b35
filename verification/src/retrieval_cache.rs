//! The exact-match retrieval cache: an identical request against an
//! identical corpus state answers from the previously computed response.
//!
//! Every key carries, per target, the context's identity and the pair of
//! revision lanes the operation's response can depend on ([`op_lanes`]). A
//! write bumps a lane, later lookups compute a different key, and the stale
//! entry is unreachable until it is evicted as the least recently used.
//! The bound is a byte budget.
use crate::text::{byte_len, same};
use crate::text;
use vstd::prelude::*;

verus! {

/// The default byte budget; a budget of zero disables the cache.
pub const DEFAULT_RETRIEVAL_CACHE_BYTES: usize = 33554432;

/// The operations whose responses are cached.
#[derive(Clone, Copy, PartialEq, Eq, Structural, Debug)]
pub enum RetrievalCacheOp {
    Recall,
    Query,
    SearchPassages,
    SearchCommunities,
}

/// A context's three revision counters.
#[derive(Clone, Copy, PartialEq, Eq, Structural, Debug)]
pub struct ContextRevision {
    pub graph: u64,
    pub passages: u64,
    pub config: u64,
}

/// One target's part of a cache key: which context, which incarnation of it,
/// and the two revision lanes this operation's response can depend on.
pub struct TargetFingerprint {
    pub name: String,
    pub identity: u64,
    pub lanes: (u64, u64),
}

pub struct FingerprintView {
    pub name: Seq<char>,
    pub identity: u64,
    pub lanes: (u64, u64),
}

impl View for TargetFingerprint {
    type V = FingerprintView;

    open spec fn view(&self) -> FingerprintView {
        FingerprintView { name: self.name@, identity: self.identity, lanes: self.lanes }
    }
}

/// The whole key: operation, the targets in search order, and every other
/// parameter that affects the result.
pub struct RetrievalKey {
    pub op: RetrievalCacheOp,
    pub targets: Vec<TargetFingerprint>,
    pub params: String,
}

#[verifier::ext_equal]
pub struct KeyView {
    pub op: RetrievalCacheOp,
    pub targets: Seq<FingerprintView>,
    pub params: Seq<char>,
}

pub open spec fn fingerprint_views(targets: Seq<TargetFingerprint>) -> Seq<FingerprintView> {
    targets.map_values(|t: TargetFingerprint| t@)
}

impl View for RetrievalKey {
    type V = KeyView;

    open spec fn view(&self) -> KeyView {
        KeyView { op: self.op, targets: fingerprint_views(self.targets@), params: self.params@ }
    }
}

impl RetrievalKey {
    /// Whether two keys are the same key.
    pub fn equals(&self, other: &RetrievalKey) -> (res: bool)
        ensures
            res == (self@ == other@),
    {
        if self.op != other.op || !same(self.params.as_str(), other.params.as_str()) || self.targets.len()
            != other.targets.len() {
            proof {
                if self@ == other@ {
                    assert(self@.targets.len() == other@.targets.len());
                }
            }
            return false;
        }
        let mut i: usize = 0;
        while i < self.targets.len()
            invariant
                self.targets.len() == other.targets.len(),
                i <= self.targets.len(),
                forall|j: int| 0 <= j < i ==> #[trigger] self@.targets[j] == other@.targets[j],
            decreases self.targets.len() - i,
        {
            let a = &self.targets[i];
            let b = &other.targets[i];
            if a.identity != b.identity || a.lanes.0 != b.lanes.0 || a.lanes.1 != b.lanes.1 || !same(
                a.name.as_str(),
                b.name.as_str(),
            ) {
                assert(self@.targets[i as int] != other@.targets[i as int]);
                return false;
            }
            assert(self@.targets[i as int] == other@.targets[i as int]);
            i = i + 1;
        }
        assert(self@ =~= other@);
        true
    }

    /// The same operation and targets with other parameters.
    pub fn with_params(&self, params: String) -> (res: RetrievalKey)
        ensures
            res@ == (KeyView { params: params@, ..self@ }),
    {
        let mut targets: Vec<TargetFingerprint> = Vec::new();
        let mut i: usize = 0;
        while i < self.targets.len()
            invariant
                i <= self.targets.len(),
                fingerprint_views(targets@) == self@.targets.take(i as int),
            decreases self.targets.len() - i,
        {
            let t = &self.targets[i];
            let copied = TargetFingerprint { name: t.name.clone(), identity: t.identity, lanes: t.lanes };
            targets.push(copied);
            assert(fingerprint_views(targets@) =~= self@.targets.take(i as int).push(copied@));
            assert(fingerprint_views(targets@) =~= self@.targets.take(i + 1));
            i = i + 1;
        }
        let res = RetrievalKey { op: self.op, targets, params };
        assert(res@ =~= (KeyView { params: params@, ..self@ }));
        res
    }
}

/// What a hit replays: the response payload, and the side effects that the
/// fresh path would have had.
pub struct CachedRetrieval {
    /// The response payload's JSON text.
    pub payload: String,
    /// Per target, whether its own search came back empty.
    pub target_empty: Vec<bool>,
    /// Hits of the keyword lane alone, of both lanes, of the vector lane
    /// alone.
    pub lane_hits: (u64, u64, u64),
    /// The hit count that the search log reports.
    pub log_hits: usize,
    /// The bits of the top score that the search log reports.
    pub log_top_score: u32,
}

pub struct CachedView {
    pub payload: Seq<char>,
    pub target_empty: Seq<bool>,
    pub lane_hits: (u64, u64, u64),
    pub log_hits: usize,
    pub log_top_score: u32,
}

impl View for CachedRetrieval {
    type V = CachedView;

    open spec fn view(&self) -> CachedView {
        CachedView {
            payload: self.payload@,
            target_empty: self.target_empty@,
            lane_hits: self.lane_hits,
            log_hits: self.log_hits,
            log_top_score: self.log_top_score,
        }
    }
}

impl CachedRetrieval {
    pub fn copy(&self) -> (res: CachedRetrieval)
        ensures
            res@ == self@,
    {
        let target_empty = self.target_empty.clone();
        assert(target_empty@ =~= self.target_empty@);
        CachedRetrieval {
            payload: self.payload.clone(),
            target_empty,
            lane_hits: self.lane_hits,
            log_hits: self.log_hits,
            log_top_score: self.log_top_score,
        }
    }
}

/// One filed response.
pub struct CacheSlot {
    pub key: RetrievalKey,
    pub value: CachedRetrieval,
    pub cost: usize,
}

pub struct SlotView {
    pub key: KeyView,
    pub value: CachedView,
    pub cost: nat,
}

impl View for CacheSlot {
    type V = SlotView;

    open spec fn view(&self) -> SlotView {
        SlotView { key: self.key@, value: self.value@, cost: self.cost as nat }
    }
}

/// What the targets of a key weigh.
pub open spec fn target_cost(targets: Seq<FingerprintView>) -> nat
    decreases targets.len(),
{
    if targets.len() == 0 {
        0
    } else {
        target_cost(targets.drop_last()) + text::utf8_len(targets.last().name) + 24
    }
}

/// What a slot weighs: its payload, its key's strings and a fixed overhead.
pub open spec fn slot_weight(key: KeyView, value: CachedView) -> nat {
    text::utf8_len(value.payload) + target_cost(key.targets) + text::utf8_len(key.params) + 64
}

/// A slot's byte accounting, at most [`usize::MAX`].
pub fn slot_cost(key: &RetrievalKey, value: &CachedRetrieval) -> (res: usize)
    ensures
        res == if slot_weight(key@, value@) <= usize::MAX {
            slot_weight(key@, value@)
        } else {
            usize::MAX as nat
        },
{
    let mut total: usize = 0;
    let mut i: usize = 0;
    assert(key@.targets.take(0) =~= Seq::empty());
    while i < key.targets.len()
        invariant
            i <= key.targets.len(),
            total == if target_cost(key@.targets.take(i as int)) <= usize::MAX {
                target_cost(key@.targets.take(i as int))
            } else {
                usize::MAX as nat
            },
        decreases key.targets.len() - i,
    {
        let name: usize = byte_len(key.targets[i].name.as_str());
        total = total.saturating_add(name).saturating_add(24);
        assert(key@.targets.take(i + 1).drop_last() =~= key@.targets.take(i as int));
        i = i + 1;
    }
    assert(key@.targets.take(i as int) =~= key@.targets);
    let payload: usize = byte_len(value.payload.as_str());
    let params: usize = byte_len(key.params.as_str());
    total.saturating_add(payload).saturating_add(params).saturating_add(64)
}

/// The pair of revision lanes that an operation's response can depend on.
pub open spec fn lanes_of(op: RetrievalCacheOp, revision: ContextRevision) -> (u64, u64) {
    match op {
        RetrievalCacheOp::Recall => (revision.graph, revision.passages),
        RetrievalCacheOp::Query => (revision.graph, revision.passages),
        RetrievalCacheOp::SearchPassages => (revision.passages, revision.config),
        RetrievalCacheOp::SearchCommunities => (revision.passages, revision.config),
    }
}

/// The pair of revision lanes that an operation's response can depend on:
/// graph and passages for the graph operations, passages and config for the
/// passage operations.
pub fn op_lanes(op: RetrievalCacheOp, revision: ContextRevision) -> (res: (u64, u64))
    ensures
        res == lanes_of(op, revision),
{
    match op {
        RetrievalCacheOp::Recall | RetrievalCacheOp::Query => (revision.graph, revision.passages),
        RetrievalCacheOp::SearchPassages | RetrievalCacheOp::SearchCommunities => (revision.passages, revision.config),
    }
}

/// The cache: its slots, least recently used first.
pub struct RetrievalCache {
    slots: Vec<CacheSlot>,
    bytes: usize,
    budget: usize,
}

/// What a cache holds.
#[verifier::ext_equal]
pub struct CacheView {
    /// Least recently used first.
    pub slots: Seq<SlotView>,
    pub budget: nat,
}

/// What the slots weigh together.
pub open spec fn total_cost(slots: Seq<SlotView>) -> nat
    decreases slots.len(),
{
    if slots.len() == 0 {
        0
    } else {
        total_cost(slots.drop_last()) + slots.last().cost
    }
}

pub open spec fn slot_views(slots: Seq<CacheSlot>) -> Seq<SlotView> {
    slots.map_values(|s: CacheSlot| s@)
}

impl CacheView {
    /// The slot that `key` is filed under stands at `i`.
    pub open spec fn filed_at(self, key: KeyView, i: int) -> bool {
        0 <= i < self.slots.len() && self.slots[i].key == key
    }

    pub open spec fn holds(self, key: KeyView) -> bool {
        exists|i: int| self.filed_at(key, i)
    }

    pub open spec fn place(self, key: KeyView) -> int {
        choose|i: int| self.filed_at(key, i)
    }

    /// The cache after a lookup of `key`: a slot that was found becomes the
    /// most recently used.
    pub open spec fn touched(self, key: KeyView) -> CacheView {
        if self.holds(key) {
            let i = self.place(key);
            CacheView { slots: self.slots.remove(i).push(self.slots[i]), ..self }
        } else {
            self
        }
    }

    /// The slots without the one filed under `key`.
    pub open spec fn without(self, key: KeyView) -> Seq<SlotView> {
        if self.holds(key) {
            self.slots.remove(self.place(key))
        } else {
            self.slots
        }
    }

    /// The cache after `value` was filed under `key`: nothing if the cache is
    /// disabled or the slot weighs more than a quarter of the budget; else
    /// the slot that `key` had goes, then the least recently used go until
    /// the new one fits, and it becomes the most recently used.
    pub open spec fn filed(self, key: KeyView, value: CachedView) -> CacheView {
        let cost = slot_weight(key, value);
        if self.budget == 0 || cost > self.budget / 4 {
            self
        } else {
            CacheView {
                slots: fitted(self.without(key), (self.budget - cost) as nat).push(SlotView { key, value, cost }),
                ..self
            }
        }
    }
}

/// The slots after the first ones went until the rest weigh at most `room`.
pub open spec fn fitted(slots: Seq<SlotView>, room: nat) -> Seq<SlotView>
    decreases slots.len(),
{
    if slots.len() == 0 || total_cost(slots) <= room {
        slots
    } else {
        fitted(slots.drop_first(), room)
    }
}

/// What is left once slots went is the last of them.
proof fn fitted_is_tail(slots: Seq<SlotView>, room: nat)
    ensures
        fitted(slots, room).len() <= slots.len(),
        fitted(slots, room) == slots.skip(slots.len() - fitted(slots, room).len()),
    decreases slots.len(),
{
    if slots.len() == 0 || total_cost(slots) <= room {
        assert(slots.skip(0) =~= slots);
    } else {
        fitted_is_tail(slots.drop_first(), room);
        let rest = fitted(slots.drop_first(), room);
        assert(slots.skip(slots.len() - rest.len()) =~= slots.drop_first().skip(slots.drop_first().len() - rest.len()));
    }
}

/// Filing a response brings its own key into the cache and no other.
pub proof fn filing_brings_one_key(cache: CacheView, key: KeyView, value: CachedView, i: int)
    requires
        0 <= i < cache.filed(key, value).slots.len(),
    ensures
        cache.filed(key, value).slots[i].key == key || exists|j: int|
            0 <= j < cache.slots.len() && #[trigger] cache.slots[j] == cache.filed(key, value).slots[i],
{
    let cost = slot_weight(key, value);
    if cache.budget == 0 || cost > cache.budget / 4 {
        assert(cache.slots[i] == cache.filed(key, value).slots[i]);
    } else {
        let rest = cache.without(key);
        let kept = fitted(rest, (cache.budget - cost) as nat);
        fitted_is_tail(rest, (cache.budget - cost) as nat);
        if i < kept.len() {
            let k = i + rest.len() - kept.len();
            assert(kept[i] == rest[k]);
            if cache.holds(key) {
                let p = cache.place(key);
                assert(cache.filed_at(key, p));
                assert(rest[k] == cache.slots[if k < p { k } else { k + 1 }]);
            } else {
                assert(rest[k] == cache.slots[k]);
            }
        }
    }
}

proof fn cost_of_rest(slots: Seq<SlotView>)
    requires
        slots.len() > 0,
    ensures
        total_cost(slots) == slots[0].cost + total_cost(slots.drop_first()),
    decreases slots.len(),
{
    if slots.len() == 1 {
        assert(slots.drop_last() =~= Seq::empty());
        assert(slots.drop_first() =~= Seq::empty());
        assert(total_cost(slots.drop_last()) == 0);
    } else {
        cost_of_rest(slots.drop_last());
        assert(slots.drop_last().drop_first() =~= slots.drop_first().drop_last());
        assert(slots.drop_first().last() == slots.last());
    }
}

proof fn cost_without(slots: Seq<SlotView>, i: int)
    requires
        0 <= i < slots.len(),
    ensures
        total_cost(slots) == slots[i].cost + total_cost(slots.remove(i)),
    decreases slots.len(),
{
    if i == slots.len() - 1 {
        assert(slots.remove(i) =~= slots.drop_last());
    } else {
        cost_without(slots.drop_last(), i);
        assert(slots.remove(i).drop_last() =~= slots.drop_last().remove(i));
        assert(slots.remove(i).last() == slots.last());
    }
}

impl View for RetrievalCache {
    type V = CacheView;

    closed spec fn view(&self) -> CacheView {
        CacheView { slots: slot_views(self.slots@), budget: self.budget as nat }
    }
}

/// No key is filed twice, and what is filed fits the budget.
pub open spec fn cache_ok(cache: CacheView) -> bool {
    &&& forall|i: int, j: int|
        0 <= i < cache.slots.len() && 0 <= j < cache.slots.len() && i != j ==> (#[trigger] cache.slots[i]).key != (
        #[trigger] cache.slots[j]).key
    &&& total_cost(cache.slots) <= cache.budget
    &&& forall|i: int| 0 <= i < cache.slots.len() ==> (#[trigger] cache.slots[i]).cost == slot_weight(
        cache.slots[i].key,
        cache.slots[i].value,
    )
}

impl RetrievalCache {
    /// The slots obey [`cache_ok`], and the byte counter is their weight.
    pub closed spec fn wf(&self) -> bool {
        cache_ok(self@) && self.bytes == total_cost(self@.slots)
    }

    pub proof fn wf_means_ok(&self)
        requires
            self.wf(),
        ensures
            cache_ok(self@),
    {
    }

    pub fn new(budget: usize) -> (res: RetrievalCache)
        ensures
            res.wf(),
            res@ == (CacheView { slots: Seq::empty(), budget: budget as nat }),
    {
        let res = RetrievalCache { slots: Vec::new(), bytes: 0, budget };
        assert(res@.slots =~= Seq::empty());
        res
    }

    pub fn is_enabled(&self) -> (res: bool)
        ensures
            res == (self@.budget != 0),
    {
        self.budget != 0
    }

    pub fn len(&self) -> (res: usize)
        ensures
            res == self@.slots.len(),
    {
        self.slots.len()
    }

    pub fn bytes(&self) -> (res: usize)
        requires
            self.wf(),
        ensures
            res == total_cost(self@.slots),
    {
        self.bytes
    }

    fn position(&self, key: &RetrievalKey) -> (res: Option<usize>)
        requires
            self.wf(),
        ensures
            match res {
                Some(i) => i < self.slots.len() && self@.filed_at(key@, i as int) && self@.place(key@) == i,
                None => !self@.holds(key@),
            },
    {
        let mut i: usize = 0;
        while i < self.slots.len()
            invariant
                self.wf(),
                i <= self.slots.len(),
                forall|j: int| 0 <= j < i ==> !#[trigger] self@.filed_at(key@, j),
            decreases self.slots.len() - i,
        {
            assert(self@.slots[i as int] == self.slots@[i as int]@);
            if self.slots[i].key.equals(key) {
                assert(self@.filed_at(key@, i as int));
                return Some(i);
            }
            assert(!self@.filed_at(key@, i as int));
            i = i + 1;
        }
        None
    }

    /// Finds the response filed under `key` and makes it the most recently
    /// used.
    pub fn lookup(&mut self, key: &RetrievalKey) -> (res: Option<CachedRetrieval>)
        requires
            old(self).wf(),
        ensures
            final(self).wf(),
            final(self)@ == old(self)@.touched(key@),
            match res {
                Some(value) => old(self)@.holds(key@) && value@ == old(self)@.slots[old(self)@.place(key@)].value,
                None => !old(self)@.holds(key@),
            },
    {
        match self.position(key) {
            None => None,
            Some(i) => {
                let ghost was = self@;
                let slot = self.slots.remove(i);
                let value = slot.value.copy();
                self.slots.push(slot);
                proof {
                    assert(was.slots[i as int] == slot@);
                    assert(self@.slots =~= was.slots.remove(i as int).push(was.slots[i as int]));
                    cost_without(was.slots, i as int);
                    assert(self@.slots.drop_last() =~= was.slots.remove(i as int));
                }
                Some(value)
            },
        }
    }

    /// Files `value` under `key`.
    pub fn insert(&mut self, key: RetrievalKey, value: CachedRetrieval)
        requires
            old(self).wf(),
        ensures
            final(self).wf(),
            final(self)@ == old(self)@.filed(key@, value@),
    {
        if !self.is_enabled() {
            return;
        }
        let cost: usize = slot_cost(&key, &value);
        if cost > self.budget / 4 {
            return;
        }
        let ghost was = self@;
        assert(cost == slot_weight(key@, value@));
        if let Some(i) = self.position(&key) {
            let previous = self.slots.remove(i);
            proof {
                cost_without(was.slots, i as int);
                assert(was.slots[i as int] == previous@);
                assert(self@.slots =~= was.slots.remove(i as int));
            }
            self.bytes = self.bytes - previous.cost;
        }
        proof {
            assert(self@.slots =~= was.without(key@));
            assert forall|i: int| 0 <= i < self@.slots.len() implies (#[trigger] self@.slots[i]).key != key@ by {
                if was.holds(key@) {
                    let p = was.place(key@);
                    let o = if i < p { i } else { i + 1 };
                    assert(self@.slots[i] == was.slots[o]);
                    assert(was.filed_at(key@, p));
                    assert(was.slots[p].key == key@);
                } else {
                    assert(!was.filed_at(key@, i));
                }
            }
        }
        let room: usize = self.budget - cost;
        while self.bytes > room
            invariant
                self.wf(),
                self.budget == was.budget,
                room == was.budget - cost,
                cost <= self.budget,
                fitted(self@.slots, room as nat) == fitted(was.without(key@), room as nat),
                forall|i: int| 0 <= i < self@.slots.len() ==> (#[trigger] self@.slots[i]).key != key@,
            decreases self.slots.len(),
        {
            let ghost before = self@;
            assert(self.slots.len() > 0) by {
                if self.slots.len() == 0 {
                    assert(self@.slots =~= Seq::empty());
                }
            }
            let evicted = self.slots.remove(0);
            proof {
                cost_of_rest(before.slots);
                assert(before.slots[0] == evicted@);
                assert(self@.slots =~= before.slots.drop_first());
            }
            self.bytes = self.bytes - evicted.cost;
        }
        let ghost fit = self@.slots;
        self.slots.push(CacheSlot { key, value, cost });
        self.bytes = self.bytes + cost;
        proof {
            assert(self@.slots =~= fit.push(SlotView { key: key@, value: value@, cost: cost as nat }));
            assert(self@.slots.drop_last() =~= fit);
        }
    }
}

/// A lookup right after a response was filed finds exactly that response,
/// whenever the cache takes it at all.
pub proof fn lookup_after_filing(cache: CacheView, key: KeyView, value: CachedView)
    requires
        cache_ok(cache),
        cache.budget != 0,
        slot_weight(key, value) <= cache.budget / 4,
    ensures
        cache_ok(cache.filed(key, value)),
        cache.filed(key, value).holds(key),
        cache.filed(key, value).slots[cache.filed(key, value).place(key)].value == value,
{
    let after = cache.filed(key, value);
    let cost = slot_weight(key, value);
    let room = (cache.budget - cost) as nat;
    kept_slots(cache, key);
    fitted_keeps(cache.without(key), room);
    let rest = fitted(cache.without(key), room);
    assert(after.slots.drop_last() =~= rest);
    assert(after.filed_at(key, rest.len() as int));
    assert(after.place(key) == rest.len()) by {
        let p = after.place(key);
        assert(after.filed_at(key, p));
        if p < rest.len() {
            let o = fitted_from(cache.without(key), room, p);
            assert(cache.without(key)[o].key == key);
        }
    }
    assert forall|i: int, j: int|
        0 <= i < after.slots.len() && 0 <= j < after.slots.len() && i != j implies (#[trigger] after.slots[i]).key != (
    #[trigger] after.slots[j]).key by {
        if i < rest.len() {
            fitted_from(cache.without(key), room, i);
        }
        if j < rest.len() {
            fitted_from(cache.without(key), room, j);
        }
    }
    assert forall|i: int| 0 <= i < after.slots.len() implies (#[trigger] after.slots[i]).cost == slot_weight(
        after.slots[i].key,
        after.slots[i].value,
    ) by {
        if i < rest.len() {
            fitted_from(cache.without(key), room, i);
        }
    }
}

/// Where the `i`-th slot that fitted stood before.
proof fn fitted_from(slots: Seq<SlotView>, room: nat, i: int) -> (o: int)
    requires
        0 <= i < fitted(slots, room).len(),
    ensures
        o == i + slots.len() - fitted(slots, room).len(),
        0 <= o < slots.len(),
        slots[o] == fitted(slots, room)[i],
    decreases slots.len(),
{
    if slots.len() == 0 || total_cost(slots) <= room {
        i
    } else {
        let o = fitted_from(slots.drop_first(), room, i);
        o + 1
    }
}

proof fn fitted_keeps(slots: Seq<SlotView>, room: nat)
    ensures
        total_cost(fitted(slots, room)) <= room,
    decreases slots.len(),
{
    if slots.len() > 0 && total_cost(slots) > room {
        fitted_keeps(slots.drop_first(), room);
    }
}

proof fn kept_slots(cache: CacheView, key: KeyView)
    requires
        cache_ok(cache),
    ensures
        forall|i: int| 0 <= i < cache.without(key).len() ==> (#[trigger] cache.without(key)[i]).key != key,
        forall|i: int, j: int|
            0 <= i < cache.without(key).len() && 0 <= j < cache.without(key).len() && i != j ==> (
            #[trigger] cache.without(key)[i]).key != (#[trigger] cache.without(key)[j]).key,
        forall|i: int| 0 <= i < cache.without(key).len() ==> (#[trigger] cache.without(key)[i]).cost == slot_weight(
            cache.without(key)[i].key,
            cache.without(key)[i].value,
        ),
{
    if cache.holds(key) {
        assert(cache.filed_at(key, cache.place(key)));
    } else {
        assert forall|i: int| 0 <= i < cache.slots.len() implies (#[trigger] cache.slots[i]).key != key by {
            assert(!cache.filed_at(key, i));
        }
    }
}

/// Two states of a context that differ in a lane the operation depends on
/// give different keys: a write makes every earlier entry unreachable.
pub proof fn moved_lane_moves_the_key(op: RetrievalCacheOp, name: Seq<char>, identity: u64, before: ContextRevision, after: ContextRevision)
    requires
        lanes_of(op, before) != lanes_of(op, after),
    ensures
        (FingerprintView { name, identity, lanes: lanes_of(op, before) }) != (FingerprintView {
            name,
            identity,
            lanes: lanes_of(op, after),
        }),
{
}

/// A slot weighs sixty-four bytes and those of its payload and its
/// parameters, and each target that its key names adds twenty-four and those
/// of its name.
pub proof fn slots_weigh_their_texts(key: KeyView, value: CachedView, target: FingerprintView)
    ensures
        key.targets.len() == 0 ==> slot_weight(key, value) == 64 + text::utf8_len(value.payload) + text::utf8_len(key.params),
        slot_weight(KeyView { targets: key.targets.push(target), ..key }, value) == slot_weight(key, value) + 24 + text::utf8_len(
            target.name,
        ),
{
    assert(key.targets.push(target).drop_last() =~= key.targets);
}

/// Slots weigh together what each of them weighs.
pub proof fn slots_weigh_together(slots: Seq<SlotView>, slot: SlotView, i: int)
    ensures
        total_cost(Seq::<SlotView>::empty()) == 0,
        total_cost(slots.push(slot)) == total_cost(slots) + slot.cost,
        0 <= i < slots.len() ==> total_cost(slots) == total_cost(slots.remove(i)) + slots[i].cost,
{
    assert(slots.push(slot).drop_last() =~= slots);
    if 0 <= i < slots.len() {
        cost_without(slots, i);
    }
}

/// A recall or a query depends on the graph and the passages; a search of
/// passages or of communities on the passages and the configuration. A write
/// to one of these changes the lanes, and no other write does.
pub proof fn lanes_are_what_an_answer_rests_on(op: RetrievalCacheOp, a: ContextRevision, b: ContextRevision)
    ensures
        op is Recall || op is Query ==> (lanes_of(op, a) == lanes_of(op, b) <==> a.graph == b.graph && a.passages == b.passages),
        op is SearchPassages || op is SearchCommunities ==> (lanes_of(op, a) == lanes_of(op, b) <==> a.passages == b.passages
            && a.config == b.config),
        op is Recall || op is Query ==> lanes_of(op, a).0 == a.graph,
        op is SearchPassages || op is SearchCommunities ==> lanes_of(op, a).0 == a.passages,
{
}

/// A lookup makes the slot that it finds the last used and keeps all others
/// in their order; one that finds nothing changes nothing.
pub proof fn lookups_keep_every_slot(cache: CacheView, key: KeyView, i: int, j: int)
    requires
        cache_ok(cache),
    ensures
        cache.touched(key).budget == cache.budget,
        cache.touched(key).slots.len() == cache.slots.len(),
        0 <= i < cache.slots.len() && cache.slots[i].key == key ==> {
            &&& cache.touched(key).slots.last() == cache.slots[i]
            &&& 0 <= j < i ==> cache.touched(key).slots[j] == cache.slots[j]
            &&& i < j < cache.slots.len() ==> cache.touched(key).slots[j - 1] == cache.slots[j]
        },
        (forall|k: int| 0 <= k < cache.slots.len() ==> (#[trigger] cache.slots[k]).key != key) ==> cache.touched(key) == cache,
{
    if 0 <= i < cache.slots.len() && cache.slots[i].key == key {
        assert(cache.filed_at(key, i));
        let p = cache.place(key);
        assert(cache.filed_at(key, p));
        assert(cache.slots[p].key == cache.slots[i].key);
        assert(p == i);
    } else if cache.holds(key) {
        let p = cache.place(key);
        assert(cache.filed_at(key, p));
        assert(cache.slots[p].key == key);
    }
}

proof fn fitted_leaves_the_fewest(slots: Seq<SlotView>, room: nat)
    ensures
        ({
            let gone = slots.len() - fitted(slots, room).len();
            &&& 0 <= gone <= slots.len()
            &&& fitted(slots, room) == slots.skip(gone)
            &&& gone > 0 ==> total_cost(slots.skip(gone - 1)) > room
        }),
    decreases slots.len(),
{
    fitted_is_tail(slots, room);
    if slots.len() > 0 && total_cost(slots) > room {
        fitted_leaves_the_fewest(slots.drop_first(), room);
        let gone = slots.len() - fitted(slots, room).len();
        if gone == 1 {
            assert(slots.skip(0) =~= slots);
        } else {
            assert(slots.skip(gone - 1) =~= slots.drop_first().skip(gone - 2));
        }
    }
}

/// A response of at most a quarter of the budget is filed as the last used,
/// in place of what its key had. The budget is kept: of the others those go
/// that were used longest ago, and no more of them than must. What is
/// returned is how many went. A heavier response, or any where the cache is
/// off, changes nothing.
pub proof fn filing_drops_the_fewest(cache: CacheView, key: KeyView, value: CachedView, others: Seq<SlotView>) -> (gone: int)
    requires
        cache_ok(cache),
        (exists|i: int| 0 <= i < cache.slots.len() && (#[trigger] cache.slots[i]).key == key && others == cache.slots.remove(i))
            || (others == cache.slots && forall|i: int| 0 <= i < cache.slots.len() ==> (#[trigger] cache.slots[i]).key != key),
    ensures
        cache.filed(key, value).budget == cache.budget,
        cache.budget == 0 || slot_weight(key, value) > cache.budget / 4 ==> cache.filed(key, value) == cache,
        cache.budget > 0 && slot_weight(key, value) <= cache.budget / 4 ==> {
            let after = cache.filed(key, value).slots;
            &&& 0 <= gone <= others.len()
            &&& after == others.skip(gone).push(SlotView { key, value, cost: slot_weight(key, value) })
            &&& total_cost(after) <= cache.budget
            &&& gone > 0 ==> total_cost(others.skip(gone - 1)) + slot_weight(key, value) > cache.budget
        },
{
    let cost = slot_weight(key, value);
    if cache.budget == 0 || cost > cache.budget / 4 {
        0
    } else {
        let room = (cache.budget - cost) as nat;
        if exists|i: int| 0 <= i < cache.slots.len() && (#[trigger] cache.slots[i]).key == key && others == cache.slots.remove(i) {
            let i = choose|i: int|
                0 <= i < cache.slots.len() && (#[trigger] cache.slots[i]).key == key && others == cache.slots.remove(i);
            assert(cache.filed_at(key, i));
            let p = cache.place(key);
            assert(cache.filed_at(key, p));
            assert(cache.slots[p].key == cache.slots[i].key);
            assert(p == i);
        } else if cache.holds(key) {
            assert(cache.filed_at(key, cache.place(key)));
            assert(cache.slots[cache.place(key)].key == key);
        }
        assert(cache.without(key) == others);
        fitted_leaves_the_fewest(others, room);
        fitted_keeps(others, room);
        let slot = SlotView { key, value, cost };
        assert(fitted(others, room).push(slot).drop_last() =~= fitted(others, room));
        others.len() - fitted(others, room).len()
    }
}

/// A cache keeps to its budget, files no key twice, and weighs every slot by
/// what it holds.
pub proof fn caches_keep_to_their_budget(cache: CacheView, i: int, j: int)
    requires
        cache_ok(cache),
    ensures
        total_cost(cache.slots) <= cache.budget,
        0 <= i < j < cache.slots.len() ==> cache.slots[i].key != cache.slots[j].key,
        0 <= i < cache.slots.len() ==> cache.slots[i].cost == slot_weight(cache.slots[i].key, cache.slots[i].value),
{
}

} // verus!
