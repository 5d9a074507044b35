//! The semantic retrieval tier: a paraphrased passage query answers from the
//! exact-match cache entry of an equivalent earlier query.
//!
//! This index stores no payloads and invalidates nothing: it holds only
//! claims that a query asks what a canonical query asked. A claim needs the
//! cosine of the two embeddings at the threshold or above, and the text
//! guard's agreement. Vectors stay with the caller, who hands over a rank
//! for each cosine: a number that grows with it, and the threshold's rank in
//! the same scale.
use crate::names;
use crate::query_guard;
use crate::query_guard::queries_agree;
use crate::ranking;
use crate::ranking::rank;
use crate::retrieval_cache::{RetrievalCacheOp, RetrievalKey};
use crate::search;
use crate::search::reaches_floor;
use crate::text::{equal_lists, same};
use vstd::prelude::*;

verus! {

/// How many claims the index holds at most.
pub const SEMANTIC_CACHE_CAP: usize = 1024;

/// One equivalence class's scope: everything of the exact key that is not
/// the query text.
pub struct SemanticBucket {
    pub op: RetrievalCacheOp,
    pub targets: Vec<String>,
    /// The parameters without the query.
    pub params: String,
}

#[verifier::ext_equal]
pub struct BucketView {
    pub op: RetrievalCacheOp,
    pub targets: Seq<Seq<char>>,
    pub params: Seq<char>,
}

impl View for SemanticBucket {
    type V = BucketView;

    open spec fn view(&self) -> BucketView {
        BucketView { op: self.op, targets: names::views(self.targets@), params: self.params@ }
    }
}

impl SemanticBucket {
    /// The bucket of a key: its operation, its targets' names and the
    /// parameters without the query.
    pub fn of(key: &RetrievalKey, sans_query_params: &str) -> (res: SemanticBucket)
        ensures
            res@ == bucket_of(key@, sans_query_params@),
    {
        let mut targets: Vec<String> = Vec::new();
        let mut i: usize = 0;
        while i < key.targets.len()
            invariant
                i <= key.targets.len(),
                names::views(targets@) == bucket_of(key@, sans_query_params@).targets.take(i as int),
            decreases key.targets.len() - i,
        {
            let ghost was = targets@;
            targets.push(key.targets[i].name.clone());
            assert(names::views(targets@) =~= names::views(was).push(key.targets@[i as int].name@));
            assert(names::views(targets@) =~= bucket_of(key@, sans_query_params@).targets.take(i + 1));
            i = i + 1;
        }
        let res = SemanticBucket { op: key.op, targets, params: sans_query_params.to_owned() };
        assert(res@ =~= bucket_of(key@, sans_query_params@));
        res
    }

    /// Whether two buckets are the same scope.
    pub fn equals(&self, other: &SemanticBucket) -> (res: bool)
        ensures
            res == (self@ == other@),
    {
        self.op == other.op && same(self.params.as_str(), other.params.as_str()) && equal_lists(
            &self.targets,
            &other.targets,
        )
    }
}

pub open spec fn bucket_of(key: crate::retrieval_cache::KeyView, sans_query_params: Seq<char>) -> BucketView {
    BucketView {
        op: key.op,
        targets: key.targets.map_values(|t: crate::retrieval_cache::FingerprintView| t.name),
        params: sans_query_params,
    }
}

/// One canonical query: its text, the caller's handle on its embedding, and
/// the full parameters its results were filed under.
pub struct SemanticSlot {
    pub query: String,
    pub embedding: u64,
    pub params: String,
    pub tick: u64,
}

pub struct SlotView {
    pub query: Seq<char>,
    pub embedding: u64,
    pub params: Seq<char>,
    pub tick: u64,
}

impl View for SemanticSlot {
    type V = SlotView;

    open spec fn view(&self) -> SlotView {
        SlotView { query: self.query@, embedding: self.embedding, params: self.params@, tick: self.tick }
    }
}

/// A claim that cleared the threshold.
pub struct Candidate {
    pub query: String,
    pub params: String,
    pub similarity: u64,
}

pub struct CandidateView {
    pub query: Seq<char>,
    pub params: Seq<char>,
    pub similarity: u64,
}

impl View for Candidate {
    type V = CandidateView;

    open spec fn view(&self) -> CandidateView {
        CandidateView { query: self.query@, params: self.params@, similarity: self.similarity }
    }
}

/// One scope with its claims.
pub struct Cluster {
    pub bucket: SemanticBucket,
    pub slots: Vec<SemanticSlot>,
}

#[verifier::ext_equal]
pub struct ClusterView {
    pub bucket: BucketView,
    pub slots: Seq<SlotView>,
}

pub open spec fn slot_views(slots: Seq<SemanticSlot>) -> Seq<SlotView> {
    slots.map_values(|s: SemanticSlot| s@)
}

impl View for Cluster {
    type V = ClusterView;

    open spec fn view(&self) -> ClusterView {
        ClusterView { bucket: self.bucket@, slots: slot_views(self.slots@) }
    }
}

/// The claims index. Without a threshold it is off.
pub struct SemanticCache {
    threshold: Option<u64>,
    clusters: Vec<Cluster>,
    tick: u64,
}

#[verifier::ext_equal]
pub struct IndexView {
    pub threshold: Option<u64>,
    pub clusters: Seq<ClusterView>,
    pub tick: u64,
}

impl View for SemanticCache {
    type V = IndexView;

    closed spec fn view(&self) -> IndexView {
        IndexView {
            threshold: self.threshold,
            clusters: self.clusters@.map_values(|c: Cluster| c@),
            tick: self.tick,
        }
    }
}

/// How many claims the clusters hold.
pub open spec fn claim_count(clusters: Seq<ClusterView>) -> nat
    decreases clusters.len(),
{
    if clusters.len() == 0 {
        0
    } else {
        claim_count(clusters.drop_last()) + clusters.last().slots.len()
    }
}

/// The handles on the embeddings of a scope's claims.
pub open spec fn handles_of(slots: Seq<SlotView>) -> Seq<u64> {
    slots.map_values(|s: SlotView| s.embedding)
}

/// The handles on the embeddings of the first `n` scopes' claims.
pub open spec fn handles_upto(clusters: Seq<ClusterView>, n: nat) -> Seq<u64>
    decreases n,
{
    if n == 0 {
        Seq::empty()
    } else {
        handles_upto(clusters, (n - 1) as nat) + handles_of(clusters[n - 1].slots)
    }
}

/// The slot at `i` clears the threshold; a cosine that is not a number never
/// does.
pub open spec fn clears(cosines: Seq<u64>, threshold: u64, i: int) -> bool {
    0 <= i < cosines.len() && search::clears_floor(cosines[i], threshold)
}

/// The first `n` positions that clear the threshold.
pub open spec fn clearing_upto(cosines: Seq<u64>, threshold: u64, n: nat) -> Seq<int>
    decreases n,
{
    if n == 0 {
        Seq::empty()
    } else {
        let rest = clearing_upto(cosines, threshold, (n - 1) as nat);
        if clears(cosines, threshold, n - 1) {
            rest.push(n - 1)
        } else {
            rest
        }
    }
}

/// The keys by which candidates are ordered: the greater cosine first.
pub open spec fn descending(cosines: Seq<u64>, positions: Seq<int>) -> Seq<(u64, u64)> {
    positions.map_values(|p: int| (0u64, (u64::MAX - cosines[p]) as u64))
}

/// `found` holds the claims at the positions that clear the threshold, the
/// greatest cosine first, equals in slot order.
pub open spec fn candidates_are(slots: Seq<SlotView>, cosines: Seq<u64>, threshold: u64, found: Seq<CandidateView>) -> bool {
    let at = clearing_upto(cosines, threshold, slots.len());
    exists|order: Seq<usize>| #[trigger]
        ranking::is_ranking(descending(cosines, at), order) && found.len() == order.len() && forall|k: int|
            0 <= k < found.len() ==> #[trigger] found[k] == (CandidateView {
                query: slots[at[order[k] as int]].query,
                params: slots[at[order[k] as int]].params,
                similarity: cosines[at[order[k] as int]],
            })
}

impl IndexView {
    pub open spec fn placed_at(self, bucket: BucketView, i: int) -> bool {
        0 <= i < self.clusters.len() && self.clusters[i].bucket == bucket
    }

    pub open spec fn knows(self, bucket: BucketView) -> bool {
        exists|i: int| self.placed_at(bucket, i)
    }

    pub open spec fn place(self, bucket: BucketView) -> int {
        choose|i: int| self.placed_at(bucket, i)
    }

    /// The claims of a scope, in slot order.
    pub open spec fn claims(self, bucket: BucketView) -> Seq<SlotView> {
        if self.knows(bucket) {
            self.clusters[self.place(bucket)].slots
        } else {
            Seq::empty()
        }
    }

    /// The index after a scan of a scope: one tick on, and every claim that
    /// cleared the threshold used at that tick.
    pub open spec fn scanned(self, bucket: BucketView, cosines: Seq<u64>) -> IndexView {
        match self.threshold {
            None => self,
            Some(t) => {
                let tick = self.tick.wrapping_add(1);
                if self.knows(bucket) {
                    let i = self.place(bucket);
                    let slots = Seq::new(
                        self.clusters[i].slots.len(),
                        |j: int| if clears(cosines, t, j) {
                            SlotView { tick, ..self.clusters[i].slots[j] }
                        } else {
                            self.clusters[i].slots[j]
                        },
                    );
                    IndexView { tick, clusters: self.clusters.update(i, ClusterView { bucket, slots }), ..self }
                } else {
                    IndexView { tick, ..self }
                }
            },
        }
    }

    /// The first claim of a scope that clears the threshold and that the
    /// guard finds to agree with `query`.
    pub open spec fn takes(self, bucket: BucketView, query: Seq<char>, cosines: Seq<u64>, j: int) -> bool {
        &&& 0 <= j < self.claims(bucket).len()
        &&& clears(cosines, self.threshold->0, j)
        &&& query_guard::agree(self.claims(bucket)[j].query, query)
    }

    pub open spec fn takes_first(self, bucket: BucketView, query: Seq<char>, cosines: Seq<u64>, j: int) -> bool {
        self.takes(bucket, query, cosines, j) && forall|k: int| 0 <= k < j ==> !#[trigger] self.takes(bucket, query, cosines, k)
    }

    /// The clusters with one more claim at the end of its scope.
    pub open spec fn opened(self, bucket: BucketView, slot: SlotView) -> Seq<ClusterView> {
        if self.knows(bucket) {
            let i = self.place(bucket);
            self.clusters.update(i, ClusterView { bucket, slots: self.clusters[i].slots.push(slot) })
        } else {
            self.clusters.push(ClusterView { bucket, slots: seq![slot] })
        }
    }

    /// The index after a fresh fill was filed as its cluster's canonical.
    pub open spec fn registered(
        self,
        bucket: BucketView,
        query: Seq<char>,
        embedding: u64,
        params: Seq<char>,
        cosines: Seq<u64>,
    ) -> IndexView {
        match self.threshold {
            None => self,
            Some(_) => {
                let tick = self.tick.wrapping_add(1);
                let slot = SlotView { query, embedding, params, tick };
                if exists|j: int| self.takes_first(bucket, query, cosines, j) {
                    let i = self.place(bucket);
                    let j = choose|j: int| self.takes_first(bucket, query, cosines, j);
                    IndexView {
                        tick,
                        clusters: self.clusters.update(
                            i,
                            ClusterView { bucket, slots: self.clusters[i].slots.update(j, slot) },
                        ),
                        ..self
                    }
                } else {
                    let clusters = self.opened(bucket, slot);
                    IndexView {
                        tick,
                        clusters: if claim_count(clusters) > SEMANTIC_CACHE_CAP {
                            without_stalest(clusters)
                        } else {
                            clusters
                        },
                        ..self
                    }
                }
            },
        }
    }
}

/// The claim at `at` is the stalest: none is older, and none before it in
/// cluster order is as old.
pub open spec fn is_stalest(clusters: Seq<ClusterView>, at: (int, int)) -> bool {
    &&& 0 <= at.0 < clusters.len() && 0 <= at.1 < clusters[at.0].slots.len()
    &&& forall|i: int, j: int|
        0 <= i < clusters.len() && 0 <= j < clusters[i].slots.len() ==> {
            &&& clusters[at.0].slots[at.1].tick <= (#[trigger] clusters[i].slots[j]).tick
            &&& (i < at.0 || (i == at.0 && j < at.1)) ==> clusters[at.0].slots[at.1].tick < clusters[i].slots[j].tick
        }
}

/// The clusters without their stalest claim, whose place the last of its
/// scope takes; a scope left empty goes.
pub open spec fn without_stalest(clusters: Seq<ClusterView>) -> Seq<ClusterView> {
    if exists|at: (int, int)| is_stalest(clusters, at) {
        let at = choose|at: (int, int)| is_stalest(clusters, at);
        let slots = clusters[at.0].slots.update(at.1, clusters[at.0].slots.last()).drop_last();
        if slots.len() == 0 {
            clusters.remove(at.0)
        } else {
            clusters.update(at.0, ClusterView { slots, ..clusters[at.0] })
        }
    } else {
        clusters
    }
}

/// No scope stands twice, none is empty, and the claims are at most the cap.
pub open spec fn index_ok(index: IndexView) -> bool {
    &&& forall|i: int, j: int|
        0 <= i < index.clusters.len() && 0 <= j < index.clusters.len() && i != j ==> (#[trigger] index.clusters[i]).bucket
            != (#[trigger] index.clusters[j]).bucket
    &&& forall|i: int| 0 <= i < index.clusters.len() ==> (#[trigger] index.clusters[i]).slots.len() > 0
    &&& claim_count(index.clusters) <= SEMANTIC_CACHE_CAP
}

proof fn count_updated(clusters: Seq<ClusterView>, i: int, c: ClusterView)
    requires
        0 <= i < clusters.len(),
    ensures
        claim_count(clusters.update(i, c)) == claim_count(clusters) - clusters[i].slots.len() + c.slots.len(),
        claim_count(clusters) >= clusters[i].slots.len(),
    decreases clusters.len(),
{
    let u = clusters.update(i, c);
    if i == clusters.len() - 1 {
        assert(u.drop_last() =~= clusters.drop_last());
    } else {
        count_updated(clusters.drop_last(), i, c);
        assert(u.drop_last() =~= clusters.drop_last().update(i, c));
        assert(u.last() == clusters.last());
    }
}

proof fn count_removed(clusters: Seq<ClusterView>, i: int)
    requires
        0 <= i < clusters.len(),
    ensures
        claim_count(clusters.remove(i)) == claim_count(clusters) - clusters[i].slots.len(),
    decreases clusters.len(),
{
    if i == clusters.len() - 1 {
        assert(clusters.remove(i) =~= clusters.drop_last());
    } else {
        count_removed(clusters.drop_last(), i);
        assert(clusters.remove(i).drop_last() =~= clusters.drop_last().remove(i));
        assert(clusters.remove(i).last() == clusters.last());
    }
}

proof fn clearing_bounds(cosines: Seq<u64>, threshold: u64, n: nat)
    ensures
        clearing_upto(cosines, threshold, n).len() <= n,
        forall|k: int| 0 <= k < clearing_upto(cosines, threshold, n).len() ==> {
            let p = #[trigger] clearing_upto(cosines, threshold, n)[k];
            0 <= p < n && clears(cosines, threshold, p)
        },
    decreases n,
{
    if n > 0 {
        clearing_bounds(cosines, threshold, (n - 1) as nat);
    }
}

fn push_handles(list: &mut Vec<u64>, slots: &Vec<SemanticSlot>)
    ensures
        final(list)@ == old(list)@ + handles_of(slot_views(slots@)),
{
    let ghost base = list@;
    let ghost more = handles_of(slot_views(slots@));
    let mut i: usize = 0;
    assert(base + more.take(0) =~= base);
    while i < slots.len()
        invariant
            i <= slots.len(),
            more == handles_of(slot_views(slots@)),
            list@ == base + more.take(i as int),
        decreases slots.len() - i,
    {
        list.push(slots[i].embedding);
        assert(list@ =~= base + more.take(i + 1));
        i = i + 1;
    }
    assert(more.take(i as int) =~= more);
}

impl SemanticCache {
    /// The index obeys [`index_ok`].
    pub closed spec fn wf(&self) -> bool {
        index_ok(self@)
    }

    pub proof fn wf_means_ok(&self)
        requires
            self.wf(),
        ensures
            index_ok(self@),
    {
    }

    /// An empty index with the threshold's rank; without one it is off.
    pub fn new(threshold: Option<u64>) -> (res: SemanticCache)
        ensures
            res.wf(),
            res@ == (IndexView { threshold, clusters: Seq::empty(), tick: 0 }),
    {
        let res = SemanticCache { threshold, clusters: Vec::new(), tick: 0 };
        assert(res@.clusters =~= Seq::empty());
        res
    }

    pub fn is_enabled(&self) -> (res: bool)
        ensures
            res == (self@.threshold is Some),
    {
        self.threshold.is_some()
    }

    /// How many claims the index holds.
    pub fn len(&self) -> (res: usize)
        requires
            self.wf(),
        ensures
            res == claim_count(self@.clusters),
    {
        count_claims(&self.clusters, Ghost(SEMANTIC_CACHE_CAP as nat))
    }

    fn position(&self, bucket: &SemanticBucket) -> (res: Option<usize>)
        requires
            self.wf(),
        ensures
            match res {
                Some(i) => i < self.clusters.len() && self@.placed_at(bucket@, i as int) && self@.place(bucket@) == i,
                None => !self@.knows(bucket@),
            },
    {
        let mut i: usize = 0;
        while i < self.clusters.len()
            invariant
                self.wf(),
                i <= self.clusters.len(),
                forall|j: int| 0 <= j < i ==> !#[trigger] self@.placed_at(bucket@, j),
            decreases self.clusters.len() - i,
        {
            assert(self@.clusters[i as int] == self.clusters@[i as int]@);
            if self.clusters[i].bucket.equals(bucket) {
                assert(self@.placed_at(bucket@, i as int));
                return Some(i);
            }
            assert(!self@.placed_at(bucket@, i as int));
            i = i + 1;
        }
        None
    }

    /// The caller's handles on the embeddings of a scope's claims, in slot
    /// order.
    pub fn embeddings(&self, bucket: &SemanticBucket) -> (res: Vec<u64>)
        requires
            self.wf(),
        ensures
            res@ == handles_of(self@.claims(bucket@)),
    {
        let mut res: Vec<u64> = Vec::new();
        match self.position(bucket) {
            None => {
                assert(res@ =~= handles_of(self@.claims(bucket@)));
            },
            Some(at) => {
                assert(self@.claims(bucket@) == slot_views(self.clusters@[at as int].slots@));
                push_handles(&mut res, &self.clusters[at].slots);
                assert(res@ =~= handles_of(self@.claims(bucket@)));
            },
        }
        res
    }

    /// The handles on every embedding that a claim holds. The caller can drop
    /// the others.
    pub fn handles(&self) -> (res: Vec<u64>)
        ensures
            res@ == handles_upto(self@.clusters, self@.clusters.len()),
    {
        let mut res: Vec<u64> = Vec::new();
        let mut i: usize = 0;
        while i < self.clusters.len()
            invariant
                i <= self.clusters.len(),
                self@.clusters.len() == self.clusters.len(),
                res@ == handles_upto(self@.clusters, i as nat),
            decreases self.clusters.len() - i,
        {
            push_handles(&mut res, &self.clusters[i].slots);
            assert(self@.clusters[i as int].slots == slot_views(self.clusters@[i as int].slots@));
            i = i + 1;
        }
        res
    }

    /// The claims of a scope at the threshold or above, the greatest cosine
    /// first; each of them counts as used. `cosines` holds one rank per claim
    /// of the scope, in slot order; a claim without one does not clear.
    pub fn candidates(&mut self, bucket: &SemanticBucket, cosines: &Vec<u64>) -> (res: Vec<Candidate>)
        requires
            old(self).wf(),
        ensures
            final(self).wf(),
            final(self)@ == old(self)@.scanned(bucket@, cosines@),
            match old(self)@.threshold {
                None => res.len() == 0,
                Some(t) => candidates_are(
                    old(self)@.claims(bucket@),
                    cosines@,
                    t,
                    res@.map_values(|c: Candidate| c@),
                ),
            },
    {
        let threshold: u64 = match self.threshold {
            None => {
                return Vec::new();
            },
            Some(t) => t,
        };
        let ghost was = self@;
        let tick: u64 = self.tick.wrapping_add(1);
        let place = self.position(bucket);
        self.tick = tick;
        let mut found: Vec<Candidate> = Vec::new();
        let mut keys: Vec<(u64, u64)> = Vec::new();
        let ghost claims = was.claims(bucket@);
        let ghost at = clearing_upto(cosines@, threshold, claims.len());
        assert(self@ =~= (IndexView { tick, ..was }));
        match place {
            None => {
                assert(claims =~= Seq::empty());
            },
            Some(c) => {
                let ghost mid = self@;
                let n: usize = self.clusters[c].slots.len();
                let mut i: usize = 0;
                assert(mid.clusters[c as int] == self.clusters@[c as int]@);
                assert(claims == mid.clusters[c as int].slots);
                while i < n
                    invariant
                        c < self.clusters.len(),
                        self.clusters.len() == mid.clusters.len(),
                        n == claims.len(),
                        claims == mid.clusters[c as int].slots,
                        i <= n,
                        self.tick == tick,
                        self.threshold == was.threshold,
                        forall|k: int| 0 <= k < self.clusters.len() && k != c ==> #[trigger] self@.clusters[k] == mid.clusters[k],
                        self@.clusters[c as int].bucket == mid.clusters[c as int].bucket,
                        self@.clusters[c as int].slots.len() == n,
                        self.clusters@[c as int].slots.len() == n,
                        forall|j: int|
                            0 <= j < n ==> #[trigger] self@.clusters[c as int].slots[j] == if j < i && clears(
                                cosines@,
                                threshold,
                                j,
                            ) {
                                SlotView { tick, ..claims[j] }
                            } else {
                                claims[j]
                            },
                        found.len() == clearing_upto(cosines@, threshold, i as nat).len(),
                        keys@ == descending(cosines@, clearing_upto(cosines@, threshold, i as nat)),
                        forall|k: int|
                            0 <= k < found.len() ==> (#[trigger] found@[k])@ == (CandidateView {
                                query: claims[clearing_upto(cosines@, threshold, i as nat)[k]].query,
                                params: claims[clearing_upto(cosines@, threshold, i as nat)[k]].params,
                                similarity: cosines@[clearing_upto(cosines@, threshold, i as nat)[k]],
                            }),
                    decreases n - i,
                {
                    let ghost step = self@;
                    let ghost sofar = clearing_upto(cosines@, threshold, i as nat);
                    proof {
                        clearing_bounds(cosines@, threshold, i as nat);
                    }
                    assert(step.clusters[c as int].slots[i as int] == self.clusters@[c as int].slots@[i as int]@);
                    if i < cosines.len() && reaches_floor(cosines[i], threshold) {
                        let slot = &mut self.clusters[c].slots[i];
                        slot.tick = tick;
                        let query = slot.query.clone();
                        let params = slot.params.clone();
                        found.push(Candidate { query, params, similarity: cosines[i] });
                        keys.push((0, u64::MAX - cosines[i]));
                        assert(keys@ =~= descending(cosines@, sofar.push(i as int)));
                    }
                    proof {
                        assert forall|j: int| 0 <= j < n implies #[trigger] self@.clusters[c as int].slots[j] == if j < i + 1
                            && clears(cosines@, threshold, j) {
                            SlotView { tick, ..claims[j] }
                        } else {
                            claims[j]
                        } by {
                            assert(self@.clusters[c as int].slots[j] == self.clusters@[c as int].slots@[j]@);
                            if j != i {
                                assert(self@.clusters[c as int].slots[j] == step.clusters[c as int].slots[j]);
                            }
                        }
                        assert forall|k: int| 0 <= k < self.clusters.len() && k != c implies #[trigger] self@.clusters[k]
                            == mid.clusters[k] by {
                            assert(self@.clusters[k] == step.clusters[k]);
                        }
                    }
                    i = i + 1;
                }
                proof {
                    let goal = was.scanned(bucket@, cosines@);
                    assert(self@.clusters[c as int].slots =~= goal.clusters[c as int].slots);
                    assert(self@.clusters =~= goal.clusters);
                    count_updated(was.clusters, c as int, goal.clusters[c as int]);
                    assert(was.clusters.update(c as int, goal.clusters[c as int]) =~= goal.clusters);
                }
            },
        }
        assert(keys@ =~= descending(cosines@, at));
        let order = rank(&keys);
        let mut res: Vec<Candidate> = Vec::new();
        let mut k: usize = 0;
        while k < order.len()
            invariant
                k <= order.len(),
                ranking::is_ranking(keys@, order@),
                keys.len() == found.len(),
                res.len() == k,
                forall|j: int| 0 <= j < k ==> (#[trigger] res@[j])@ == found@[order@[j] as int]@,
            decreases order.len() - k,
        {
            let c = &found[order[k]];
            res.push(Candidate { query: c.query.clone(), params: c.params.clone(), similarity: c.similarity });
            k = k + 1;
        }
        proof {
            clearing_bounds(cosines@, threshold, claims.len());
            let views = res@.map_values(|c: Candidate| c@);
            assert(ranking::is_ranking(descending(cosines@, at), order@));
            assert forall|j: int| 0 <= j < views.len() implies #[trigger] views[j] == (CandidateView {
                query: claims[at[order@[j] as int]].query,
                params: claims[at[order@[j] as int]].params,
                similarity: cosines@[at[order@[j] as int]],
            }) by {
                assert(views[j] == res@[j]@);
            }
        }
        res
    }

    /// Files a fresh fill as its cluster's canonical. A claim that the new
    /// query would itself have matched is replaced; anything else opens a new
    /// claim, and past the cap the stalest goes.
    pub fn register(&mut self, bucket: SemanticBucket, query: &str, embedding: u64, params: &str, cosines: &Vec<u64>)
        requires
            old(self).wf(),
        ensures
            final(self).wf(),
            final(self)@ == old(self)@.registered(bucket@, query@, embedding, params@, cosines@),
    {
        let threshold: u64 = match self.threshold {
            None => {
                return;
            },
            Some(t) => t,
        };
        let ghost was = self@;
        let tick: u64 = self.tick.wrapping_add(1);
        let slot = SemanticSlot { query: query.to_owned(), embedding, params: params.to_owned(), tick };
        let place = self.position(&bucket);
        self.tick = tick;
        assert(self@.clusters == was.clusters);
        match place {
            None => {
                assert(was.claims(bucket@) =~= Seq::empty());
                assert(!exists|j: int| was.takes_first(bucket@, query@, cosines@, j));
                let ghost view = slot@;
                let mut slots: Vec<SemanticSlot> = Vec::new();
                slots.push(slot);
                let cluster = Cluster { bucket, slots };
                assert(cluster@.slots =~= seq![view]);
                self.clusters.push(cluster);
                proof {
                    assert(self@.clusters =~= was.opened(bucket@, view));
                    assert(self@.clusters.drop_last() =~= was.clusters);
                    assert forall|i: int| 0 <= i < was.clusters.len() implies (#[trigger] was.clusters[i]).bucket != bucket@ by {
                        assert(!was.placed_at(bucket@, i));
                    }
                }
            },
            Some(c) => {
                let n: usize = self.clusters[c].slots.len();
                let mut i: usize = 0;
                assert(was.clusters[c as int] == self.clusters@[c as int]@);
                assert(was.claims(bucket@) == was.clusters[c as int].slots);
                while i < n
                    invariant
                        c < self.clusters.len(),
                        n == self.clusters@[c as int].slots.len(),
                        i <= n,
                        was == old(self)@,
                        was.threshold == Some(threshold),
                        was.claims(bucket@) == slot_views(self.clusters@[c as int].slots@),
                        forall|k: int| 0 <= k < i ==> !#[trigger] was.takes(bucket@, query@, cosines@, k),
                        self@.clusters == was.clusters,
                        self.threshold == was.threshold,
                        self.tick == tick,
                        tick == was.tick.wrapping_add(1),
                        was.place(bucket@) == c,
                        was.placed_at(bucket@, c as int),
                        index_ok(was),
                        slot@ == (SlotView { query: query@, embedding, params: params@, tick }),
                    decreases n - i,
                {
                    if i < cosines.len() && reaches_floor(cosines[i], threshold) && queries_agree(
                        self.clusters[c].slots[i].query.as_str(),
                        query,
                    ) {
                        let ghost view = slot@;
                        self.clusters[c].slots[i] = slot;
                        proof {
                            assert(was.takes_first(bucket@, query@, cosines@, i as int));
                            let j = choose|j: int| was.takes_first(bucket@, query@, cosines@, j);
                            assert(j == i) by {
                                if i < j {
                                    assert(was.takes(bucket@, query@, cosines@, i as int));
                                }
                                if j < i {
                                    assert(was.takes(bucket@, query@, cosines@, j));
                                }
                            }
                            let goal = ClusterView { bucket: bucket@, slots: was.clusters[c as int].slots.update(i as int, view) };
                            assert(self@.clusters[c as int].slots =~= goal.slots);
                            assert(self@.clusters =~= was.clusters.update(c as int, goal));
                            count_updated(was.clusters, c as int, goal);
                            assert(self@.threshold == was.threshold);
                            assert(self@.tick == tick);
                            assert(exists|j: int| was.takes_first(bucket@, query@, cosines@, j));
                            assert(self@ =~= was.registered(bucket@, query@, embedding, params@, cosines@));
                        }
                        return;
                    }
                    assert(!was.takes(bucket@, query@, cosines@, i as int));
                    i = i + 1;
                }
                assert(!exists|j: int| was.takes_first(bucket@, query@, cosines@, j));
                let ghost view = slot@;
                self.clusters[c].slots.push(slot);
                proof {
                    let goal = ClusterView { bucket: bucket@, slots: was.clusters[c as int].slots.push(view) };
                    assert(self@.clusters[c as int].slots =~= goal.slots);
                    assert(self@.clusters =~= was.clusters.update(c as int, goal));
                    count_updated(was.clusters, c as int, goal);
                }
            },
        }
        if count_claims(&self.clusters, Ghost((SEMANTIC_CACHE_CAP + 1) as nat)) > SEMANTIC_CACHE_CAP {
            self.evict_stalest();
        }
    }

    /// Takes the stalest claim out.
    fn evict_stalest(&mut self)
        requires
            claim_count(old(self)@.clusters) == SEMANTIC_CACHE_CAP + 1,
            forall|i: int, j: int|
                0 <= i < old(self)@.clusters.len() && 0 <= j < old(self)@.clusters.len() && i != j ==> (
                #[trigger] old(self)@.clusters[i]).bucket != (#[trigger] old(self)@.clusters[j]).bucket,
            forall|i: int| 0 <= i < old(self)@.clusters.len() ==> (#[trigger] old(self)@.clusters[i]).slots.len() > 0,
        ensures
            final(self).wf(),
            final(self)@ == (IndexView { clusters: without_stalest(old(self)@.clusters), ..old(self)@ }),
    {
        let ghost was = self@;
        assert(self.clusters.len() > 0);
        assert(was.clusters[0] == self.clusters@[0]@);
        let mut a: usize = 0;
        let mut b: usize = 0;
        let mut least: u64 = self.clusters[0].slots[0].tick;
        let mut i: usize = 0;
        while i < self.clusters.len()
            invariant
                *self == *old(self),
                was == self@,
                i <= self.clusters.len(),
                a < self.clusters.len(),
                b < was.clusters[a as int].slots.len(),
                least == was.clusters[a as int].slots[b as int].tick,
                forall|x: int, y: int|
                    0 <= x < was.clusters.len() && 0 <= y < was.clusters[x].slots.len() && x < i ==> {
                        &&& least <= (#[trigger] was.clusters[x].slots[y]).tick
                        &&& (x < a || (x == a && y < b)) ==> least < was.clusters[x].slots[y].tick
                    },
                a < i || (a == 0 && b == 0 && i == 0),
            decreases self.clusters.len() - i,
        {
            assert(was.clusters[i as int] == self.clusters@[i as int]@);
            let mut j: usize = 0;
            while j < self.clusters[i].slots.len()
                invariant
                    *self == *old(self),
                    was == self@,
                    i < self.clusters.len(),
                    was.clusters[i as int] == self.clusters@[i as int]@,
                    j <= self.clusters@[i as int].slots.len(),
                    a < self.clusters.len(),
                    b < was.clusters[a as int].slots.len(),
                    least == was.clusters[a as int].slots[b as int].tick,
                    forall|x: int, y: int|
                        0 <= x < was.clusters.len() && 0 <= y < was.clusters[x].slots.len() && (x < i || (x == i && y < j)) ==> {
                            &&& least <= (#[trigger] was.clusters[x].slots[y]).tick
                            &&& (x < a || (x == a && y < b)) ==> least < was.clusters[x].slots[y].tick
                        },
                    a < i || (a == i && b < j) || (a == 0 && b == 0 && i == 0 && j == 0),
                decreases self.clusters@[i as int].slots.len() - j,
            {
                assert(was.clusters[i as int].slots[j as int] == self.clusters@[i as int].slots@[j as int]@);
                if self.clusters[i].slots[j].tick < least {
                    a = i;
                    b = j;
                    least = self.clusters[i].slots[j].tick;
                }
                j = j + 1;
            }
            i = i + 1;
        }
        let ghost at = (a as int, b as int);
        proof {
            assert(is_stalest(was.clusters, at));
            let other = choose|o: (int, int)| is_stalest(was.clusters, o);
            assert(other == at) by {
                let p = was.clusters[other.0].slots[other.1];
                let q = was.clusters[at.0].slots[at.1];
                assert(p.tick == q.tick);
            }
        }
        let ghost slots = was.clusters[a as int].slots.update(b as int, was.clusters[a as int].slots.last()).drop_last();
        assert(was.clusters[a as int] == self.clusters@[a as int]@);
        let _gone = self.clusters[a].slots.swap_remove(b);
        assert(slot_views(self.clusters@[a as int].slots@) =~= slots);
        if self.clusters[a].slots.len() == 0 {
            let _empty = self.clusters.remove(a);
            proof {
                assert(self@.clusters =~= was.clusters.remove(a as int));
                count_removed(was.clusters, a as int);
            }
        } else {
            proof {
                let c = ClusterView { slots, ..was.clusters[a as int] };
                assert(self@.clusters[a as int] =~= c);
                assert(self@.clusters =~= was.clusters.update(a as int, c));
                count_updated(was.clusters, a as int, c);
            }
        }
    }
}

fn count_claims(clusters: &Vec<Cluster>, Ghost(cap): Ghost<nat>) -> (res: usize)
    requires
        claim_count(clusters@.map_values(|c: Cluster| c@)) <= cap,
        cap <= 100000,
    ensures
        res == claim_count(clusters@.map_values(|c: Cluster| c@)),
{
    let ghost views = clusters@.map_values(|c: Cluster| c@);
    let mut n: usize = 0;
    let mut i: usize = 0;
    assert(views.take(0) =~= Seq::empty());
    while i < clusters.len()
        invariant
            i <= clusters.len(),
            views == clusters@.map_values(|c: Cluster| c@),
            claim_count(views) <= cap <= 100000,
            n == claim_count(views.take(i as int)),
        decreases clusters.len() - i,
    {
        proof {
            assert(views.take(i + 1).drop_last() =~= views.take(i as int));
            count_prefix(views, i + 1);
            assert(views[i as int].slots.len() == clusters@[i as int].slots@.len());
        }
        n = n + clusters[i].slots.len();
        i = i + 1;
    }
    assert(views.take(i as int) =~= views);
    n
}

proof fn count_prefix(clusters: Seq<ClusterView>, n: int)
    requires
        0 <= n <= clusters.len(),
    ensures
        claim_count(clusters.take(n)) <= claim_count(clusters),
    decreases clusters.len() - n,
{
    if n < clusters.len() {
        assert(clusters.take(n + 1).drop_last() =~= clusters.take(n));
        count_prefix(clusters, n + 1);
    } else {
        assert(clusters.take(n) =~= clusters);
    }
}

/// Every candidate clears the threshold, and they come the greatest cosine
/// first.
pub proof fn candidates_clear_in_order(slots: Seq<SlotView>, cosines: Seq<u64>, threshold: u64, found: Seq<CandidateView>, k: int)
    requires
        candidates_are(slots, cosines, threshold, found),
        0 <= k < found.len(),
    ensures
        search::clears_floor(found[k].similarity, threshold),
        k > 0 ==> found[k - 1].similarity >= found[k].similarity,
{
    let at = clearing_upto(cosines, threshold, slots.len());
    let keys = descending(cosines, at);
    let order = choose|order: Seq<usize>| #[trigger]
        ranking::is_ranking(keys, order) && found.len() == order.len() && forall|k: int|
            0 <= k < found.len() ==> #[trigger] found[k] == (CandidateView {
                query: slots[at[order[k] as int]].query,
                params: slots[at[order[k] as int]].params,
                similarity: cosines[at[order[k] as int]],
            });
    assert(order[k] < keys.len());
    clearing_bounds(cosines, threshold, slots.len());
    assert(clears(cosines, threshold, at[order[k] as int]));
    if k > 0 {
        assert(ranking::ranks_before(keys, order[k - 1] as int, order[k] as int));
        assert(found[k - 1].similarity == cosines[at[order[k - 1] as int]]);
    }
}

/// A scope is what a request names without its query: its operation, its
/// contexts in order, and its other parameters.
pub proof fn scopes_leave_the_query_out(key: crate::retrieval_cache::KeyView, sans_query_params: Seq<char>, i: int)
    ensures
        bucket_of(key, sans_query_params).op == key.op,
        bucket_of(key, sans_query_params).params == sans_query_params,
        bucket_of(key, sans_query_params).targets.len() == key.targets.len(),
        0 <= i < key.targets.len() ==> bucket_of(key, sans_query_params).targets[i] == key.targets[i].name,
{
}

proof fn clearing_is_whole(cosines: Seq<u64>, threshold: u64, n: nat, i: int)
    requires
        0 <= i < n <= cosines.len(),
        search::clears_floor(cosines[i], threshold),
    ensures
        clearing_upto(cosines, threshold, n).contains(i),
    decreases n,
{
    let now = clearing_upto(cosines, threshold, n);
    if i == n - 1 {
        assert(clears(cosines, threshold, i));
        assert(now[now.len() - 1] == i);
    } else {
        clearing_is_whole(cosines, threshold, (n - 1) as nat, i);
        let rest = clearing_upto(cosines, threshold, (n - 1) as nat);
        let k = choose|k: int| 0 <= k < rest.len() && rest[k] == i;
        assert(now[k] == i);
    }
}

/// Every claim whose cosine is a number at the threshold or above is a
/// candidate, with its own query, parameters and cosine; and the candidates
/// are no other claims.
pub proof fn every_clearing_claim_is_a_candidate(
    slots: Seq<SlotView>,
    cosines: Seq<u64>,
    threshold: u64,
    found: Seq<CandidateView>,
    i: int,
    k: int,
)
    requires
        candidates_are(slots, cosines, threshold, found),
        cosines.len() == slots.len(),
    ensures
        0 <= i < slots.len() && cosines[i] >= threshold && 0x000f_ffff_ffff_ffff <= cosines[i] <= 0xfff0_0000_0000_0000
            && 0x000f_ffff_ffff_ffff <= threshold <= 0xfff0_0000_0000_0000 ==> found.contains(
            CandidateView { query: slots[i].query, params: slots[i].params, similarity: cosines[i] },
        ),
        0 <= k < found.len() ==> exists|j: int|
            0 <= j < slots.len() && cosines[j] >= threshold && #[trigger] slots[j].query == found[k].query && slots[j].params
                == found[k].params && cosines[j] == found[k].similarity,
{
    let at = clearing_upto(cosines, threshold, slots.len());
    let keys = descending(cosines, at);
    let order = choose|order: Seq<usize>| #[trigger]
        ranking::is_ranking(keys, order) && found.len() == order.len() && forall|k: int|
            0 <= k < found.len() ==> #[trigger] found[k] == (CandidateView {
                query: slots[at[order[k] as int]].query,
                params: slots[at[order[k] as int]].params,
                similarity: cosines[at[order[k] as int]],
            });
    clearing_bounds(cosines, threshold, slots.len());
    if 0 <= i < slots.len() && cosines[i] >= threshold && 0x000f_ffff_ffff_ffff <= cosines[i] <= 0xfff0_0000_0000_0000
        && 0x000f_ffff_ffff_ffff <= threshold <= 0xfff0_0000_0000_0000 {
        crate::meta_ops::floors_are_kept_between_zero_and_one(cosines[i]);
        crate::meta_ops::floors_are_kept_between_zero_and_one(threshold);
        clearing_is_whole(cosines, threshold, slots.len(), i);
        let p = choose|p: int| 0 <= p < at.len() && at[p] == i;
        assert(ranking::listed(order, p));
        let a = choose|a: int| 0 <= a < order.len() && #[trigger] order[a] == p;
        assert(found[a] == (CandidateView { query: slots[i].query, params: slots[i].params, similarity: cosines[i] }));
    }
    if 0 <= k < found.len() {
        assert(order[k] < keys.len());
        let j = at[order[k] as int];
        assert(clears(cosines, threshold, j));
        assert(slots[j].query == found[k].query);
    }
}

/// A scan marks every claim of its scope that cleared the threshold as used
/// at the new tick and leaves all others, in that scope and in every other,
/// as they were; where the tier is off it changes nothing.
pub proof fn scans_mark_what_cleared(index: IndexView, bucket: BucketView, cosines: Seq<u64>, c: int, j: int)
    requires
        index_ok(index),
        0 <= c < index.clusters.len(),
        0 <= j < index.clusters[c].slots.len(),
        index.clusters[c].bucket == bucket ==> cosines.len() == index.clusters[c].slots.len(),
    ensures
        index.threshold is None ==> index.scanned(bucket, cosines) == index,
        index.threshold matches Some(t) ==> {
            let after = index.scanned(bucket, cosines);
            let slot = index.clusters[c].slots[j];
            &&& after.threshold == index.threshold
            &&& after.tick == index.tick.wrapping_add(1)
            &&& after.clusters.len() == index.clusters.len()
            &&& after.clusters[c].bucket == index.clusters[c].bucket
            &&& after.clusters[c].slots.len() == index.clusters[c].slots.len()
            &&& index.clusters[c].bucket != bucket ==> after.clusters[c] == index.clusters[c]
            &&& index.clusters[c].bucket == bucket && search::clears_floor(cosines[j], t) ==> after.clusters[c].slots[j] == (
            SlotView { tick: after.tick, ..slot })
            &&& index.clusters[c].bucket == bucket && !search::clears_floor(cosines[j], t) ==> after.clusters[c].slots[j] == slot
        },
{
    if index.threshold is Some {
        if index.clusters[c].bucket == bucket {
            assert(index.placed_at(bucket, c));
        }
        if index.knows(bucket) {
            let i = index.place(bucket);
            assert(index.placed_at(bucket, i));
            if i != c {
                assert(index.clusters[i].bucket != index.clusters[c].bucket);
            }
        }
    }
}

/// Claims are counted one by one: a scope adds as many as it holds.
pub proof fn claims_are_counted(clusters: Seq<ClusterView>, cluster: ClusterView)
    ensures
        claim_count(Seq::<ClusterView>::empty()) == 0,
        claim_count(clusters.push(cluster)) == claim_count(clusters) + cluster.slots.len(),
{
    assert(clusters.push(cluster).drop_last() =~= clusters);
}

/// What is dropped for room is the claim that was used longest ago: one claim
/// goes, and every claim of a lower tick would have gone before it.
pub proof fn the_stalest_claim_is_dropped(clusters: Seq<ClusterView>, i: int, j: int)
    requires
        0 <= i < clusters.len(),
        0 <= j < clusters[i].slots.len(),
        forall|c: int| 0 <= c < clusters.len() ==> (#[trigger] clusters[c]).slots.len() > 0,
        forall|c: int, s: int|
            0 <= c < clusters.len() && 0 <= s < clusters[c].slots.len() && (c != i || s != j) ==> clusters[i].slots[j].tick < (
            #[trigger] clusters[c].slots[s]).tick,
    ensures
        clusters[i].slots.len() == 1 ==> without_stalest(clusters) == clusters.remove(i),
        clusters[i].slots.len() > 1 ==> {
            let after = without_stalest(clusters);
            let was = clusters[i].slots;
            &&& after.len() == clusters.len()
            &&& forall|c: int| 0 <= c < clusters.len() && c != i ==> #[trigger] after[c] == clusters[c]
            &&& after[i].bucket == clusters[i].bucket
            &&& after[i].slots.len() == was.len() - 1
            &&& forall|s: int| 0 <= s < was.len() - 1 && s != j ==> #[trigger] after[i].slots[s] == was[s]
            &&& j < was.len() - 1 ==> after[i].slots[j] == was[was.len() - 1]
        },
{
    assert(is_stalest(clusters, (i, j)));
    let at = choose|at: (int, int)| is_stalest(clusters, at);
    assert(is_stalest(clusters, at));
    if at != (i, j) {
        assert(clusters[i].slots[j].tick < clusters[at.0].slots[at.1].tick);
        assert(clusters[at.0].slots[at.1].tick <= clusters[i].slots[j].tick);
    }
}

/// A fresh fill takes the place of the first claim of its scope that is near
/// enough and that the guard finds to ask the same.
pub proof fn fills_replace_the_first_agreeing_claim(
    index: IndexView,
    bucket: BucketView,
    query: Seq<char>,
    embedding: u64,
    params: Seq<char>,
    cosines: Seq<u64>,
    c: int,
    j: int,
)
    requires
        index_ok(index),
        index.threshold is Some,
        0 <= c < index.clusters.len(),
        index.clusters[c].bucket == bucket,
        cosines.len() == index.clusters[c].slots.len(),
        0 <= j < index.clusters[c].slots.len(),
        search::clears_floor(cosines[j], index.threshold->0),
        query_guard::agree(index.clusters[c].slots[j].query, query),
        forall|k: int|
            0 <= k < j ==> !search::clears_floor(cosines[k], index.threshold->0) || !query_guard::agree(
                (#[trigger] index.clusters[c].slots[k]).query,
                query,
            ),
    ensures
        ({
            let after = index.registered(bucket, query, embedding, params, cosines);
            let slot = SlotView { query, embedding, params, tick: index.tick.wrapping_add(1) };
            &&& after.tick == index.tick.wrapping_add(1)
            &&& after.threshold == index.threshold
            &&& after.clusters.len() == index.clusters.len()
            &&& forall|d: int| 0 <= d < index.clusters.len() && d != c ==> #[trigger] after.clusters[d] == index.clusters[d]
            &&& after.clusters[c].bucket == bucket
            &&& after.clusters[c].slots == index.clusters[c].slots.update(j, slot)
        }),
{
    assert(index.placed_at(bucket, c));
    let i = index.place(bucket);
    assert(index.placed_at(bucket, i));
    if i != c {
        assert(index.clusters[i].bucket != index.clusters[c].bucket);
    }
    assert(index.takes(bucket, query, cosines, j));
    assert forall|k: int| 0 <= k < j implies !#[trigger] index.takes(bucket, query, cosines, k) by {
        assert(index.claims(bucket)[k] == index.clusters[c].slots[k]);
    }
    assert(index.takes_first(bucket, query, cosines, j));
    let t = choose|t: int| index.takes_first(bucket, query, cosines, t);
    assert(index.takes_first(bucket, query, cosines, t));
    if t < j {
        assert(!index.takes(bucket, query, cosines, t));
    } else if j < t {
        assert(!index.takes(bucket, query, cosines, j));
    }
}

/// A fresh fill that no claim of its scope answers becomes the last claim of
/// its scope, or the first of a new one; what else there was stays, as long
/// as there is room.
pub proof fn other_fills_become_claims(
    index: IndexView,
    bucket: BucketView,
    query: Seq<char>,
    embedding: u64,
    params: Seq<char>,
    cosines: Seq<u64>,
    c: int,
)
    requires
        index_ok(index),
        index.threshold is Some,
        claim_count(index.clusters) < 1024,
        forall|d: int, k: int|
            0 <= d < index.clusters.len() && index.clusters[d].bucket == bucket && 0 <= k < index.clusters[d].slots.len()
                && k < cosines.len() ==> !search::clears_floor(cosines[k], index.threshold->0) || !query_guard::agree(
                (#[trigger] index.clusters[d].slots[k]).query,
                query,
            ),
    ensures
        ({
            let after = index.registered(bucket, query, embedding, params, cosines);
            let slot = SlotView { query, embedding, params, tick: index.tick.wrapping_add(1) };
            &&& after.tick == index.tick.wrapping_add(1)
            &&& after.threshold == index.threshold
            &&& 0 <= c < index.clusters.len() && index.clusters[c].bucket == bucket ==> after.clusters
                == index.clusters.update(c, ClusterView { bucket, slots: index.clusters[c].slots.push(slot) })
            &&& (forall|d: int| 0 <= d < index.clusters.len() ==> (#[trigger] index.clusters[d]).bucket != bucket)
                ==> after.clusters == index.clusters.push(ClusterView { bucket, slots: seq![slot] })
        }),
{
    assert forall|j: int| !#[trigger] index.takes(bucket, query, cosines, j) by {
        if index.takes(bucket, query, cosines, j) && index.knows(bucket) {
            let p = index.place(bucket);
            assert(index.placed_at(bucket, p));
            assert(index.claims(bucket)[j] == index.clusters[p].slots[j]);
        }
    }
    let slot = SlotView { query, embedding, params, tick: index.tick.wrapping_add(1) };
    if 0 <= c < index.clusters.len() && index.clusters[c].bucket == bucket {
        assert(index.placed_at(bucket, c));
    }
    if index.knows(bucket) {
        let p = index.place(bucket);
        assert(index.placed_at(bucket, p));
        if 0 <= c < index.clusters.len() && index.clusters[c].bucket == bucket && p != c {
            assert(index.clusters[p].bucket != index.clusters[c].bucket);
        }
        count_updated(index.clusters, p, ClusterView { bucket, slots: index.clusters[p].slots.push(slot) });
    } else {
        claims_are_counted(index.clusters, ClusterView { bucket, slots: seq![slot] });
    }
}

/// An index holds no scope twice and none that is empty, and at most a
/// thousand and twenty-four claims.
pub proof fn indexes_keep_to_their_cap(index: IndexView, i: int, j: int)
    requires
        index_ok(index),
    ensures
        claim_count(index.clusters) <= 1024,
        0 <= i < j < index.clusters.len() ==> index.clusters[i].bucket != index.clusters[j].bucket,
        0 <= i < index.clusters.len() ==> index.clusters[i].slots.len() > 0,
{
}

/// The handles of a scope are those of its claims, one for each, in order.
pub proof fn handles_stand_for_claims(slots: Seq<SlotView>, i: int)
    ensures
        handles_of(slots).len() == slots.len(),
        0 <= i < slots.len() ==> handles_of(slots)[i] == slots[i].embedding,
{
}

/// The handles of several scopes are those of every one of them, one scope
/// after the other.
pub proof fn handles_of_every_scope(clusters: Seq<ClusterView>, n: nat, c: int, j: int) -> (at: int)
    requires
        n <= clusters.len(),
        0 <= c < n,
        0 <= j < clusters[c].slots.len(),
    ensures
        0 <= at < handles_upto(clusters, n).len(),
        handles_upto(clusters, n)[at] == clusters[c].slots[j].embedding,
        n == 1 ==> at == j,
        handles_upto(clusters, n).len() == handles_upto(clusters, (n - 1) as nat).len() + clusters[n - 1].slots.len(),
    decreases n,
{
    if c == n - 1 {
        handles_upto(clusters, (n - 1) as nat).len() + j
    } else {
        handles_of_every_scope(clusters, (n - 1) as nat, c, j)
    }
}

} // verus!
