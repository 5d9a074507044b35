//! Fusing the two search lanes into one ranking of paragraphs.
//!
//! A paragraph is ranked by the sum of the reciprocals of its ranks in the
//! lanes, or, where the vector lane has nothing, by its keyword score. Scores
//! are held as ranks of their values: numbers that grow with the score, from
//! which the caller gets the score back. The sums themselves are the
//! caller's: [`RankScores`] holds them.
use crate::names;
use crate::names::NameMap;
use crate::passages::{PassageRecord, PassageStore};
use crate::ranking;
use crate::ranking::rank;
use vstd::prelude::*;

verus! {

/// One hit of a lane: a paragraph, the hash of the text that was scored, and
/// the score.
pub struct LaneHit {
    pub source: String,
    pub index: u32,
    pub hash: u64,
    pub score: u64,
}

pub struct LaneView {
    pub source: Seq<char>,
    pub index: u32,
    pub hash: u64,
    pub score: u64,
}

impl View for LaneHit {
    type V = LaneView;

    open spec fn view(&self) -> LaneView {
        LaneView { source: self.source@, index: self.index, hash: self.hash, score: self.score }
    }
}

impl LaneHit {
    pub fn copy(&self) -> (res: LaneHit)
        ensures
            res@ == self@,
    {
        LaneHit { source: self.source.clone(), index: self.index, hash: self.hash, score: self.score }
    }
}

pub open spec fn lane_views(lane: Seq<LaneHit>) -> Seq<LaneView> {
    lane.map_values(|h: LaneHit| h@)
}

/// A lane's evidence for a paragraph: its rank in the lane, counted from
/// one, the score and the hash of the text that was scored.
pub type Evidence = (usize, u64, u64);

/// The hit is about this paragraph.
pub open spec fn is_about(hit: LaneView, source: Seq<char>, index: u32) -> bool {
    hit.source == source && hit.index == index
}

/// The last of the first `n` hits that is about a paragraph.
pub open spec fn last_showing(lane: Seq<LaneView>, source: Seq<char>, index: u32, n: nat) -> Option<Evidence>
    decreases n,
{
    if n == 0 {
        None
    } else if is_about(lane[n - 1], source, index) {
        Some((n as usize, lane[n - 1].score, lane[n - 1].hash))
    } else {
        last_showing(lane, source, index, (n - 1) as nat)
    }
}

/// The first of the first `n` hits that is about a paragraph: ranks ascend,
/// so it is the best.
pub open spec fn first_showing(lane: Seq<LaneView>, source: Seq<char>, index: u32, n: nat) -> Option<Evidence>
    decreases n,
{
    if n == 0 {
        None
    } else {
        match first_showing(lane, source, index, (n - 1) as nat) {
            Some(found) => Some(found),
            None => if is_about(lane[n - 1], source, index) {
                Some((n as usize, lane[n - 1].score, lane[n - 1].hash))
            } else {
                None
            },
        }
    }
}

/// The sums of reciprocal ranks. `single` holds at `r - 1` what the rank `r`
/// alone gives; `both` holds at `r - 1` what the hit of rank `r` in the
/// keyword lane gives together with its paragraph's rank in the vector lane.
pub struct RankScores {
    pub single: Vec<u64>,
    pub both: Vec<u64>,
}

/// The sum for a rank, counted from one.
pub open spec fn score_at(scores: Seq<u64>, rank: usize) -> u64 {
    if 1 <= rank <= scores.len() {
        scores[rank - 1]
    } else {
        0
    }
}

fn lookup_score(scores: &Vec<u64>, rank: usize) -> (res: u64)
    ensures
        res == score_at(scores@, rank),
{
    if rank >= 1 && rank <= scores.len() {
        scores[rank - 1]
    } else {
        0
    }
}

/// What the lanes in which a paragraph still stands give together.
pub open spec fn fused_score(scores: RankScores, bm25: Option<(usize, u64)>, vector: Option<(usize, u64)>) -> u64 {
    match (bm25, vector) {
        (Some(b), Some(_)) => score_at(scores.both@, b.0),
        (Some(b), None) => score_at(scores.single@, b.0),
        (None, Some(v)) => score_at(scores.single@, v.0),
        (None, None) => 0,
    }
}

/// One paragraph as it is served.
pub struct PassageSearchHit {
    pub source: String,
    pub index: u32,
    pub score: u64,
    pub text: String,
    /// Its rank and score in the keyword lane.
    pub bm25: Option<(usize, u64)>,
    /// Its rank and score in the vector lane.
    pub vector: Option<(usize, u64)>,
}

pub struct HitView {
    pub source: Seq<char>,
    pub index: u32,
    pub score: u64,
    pub text: Seq<char>,
    pub bm25: Option<(usize, u64)>,
    pub vector: Option<(usize, u64)>,
}

impl View for PassageSearchHit {
    type V = HitView;

    open spec fn view(&self) -> HitView {
        HitView {
            source: self.source@,
            index: self.index,
            score: self.score,
            text: self.text@,
            bm25: self.bm25,
            vector: self.vector,
        }
    }
}

pub open spec fn hit_views(hits: Seq<PassageSearchHit>) -> Seq<HitView> {
    hits.map_values(|h: PassageSearchHit| h@)
}

impl PassageSearchHit {
    fn copy(&self) -> (res: PassageSearchHit)
        ensures
            res@ == self@,
    {
        PassageSearchHit {
            source: self.source.clone(),
            index: self.index,
            score: self.score,
            text: self.text.clone(),
            bm25: self.bm25,
            vector: self.vector,
        }
    }
}

pub type StoreMap = Map<Seq<char>, PassageRecord>;

/// A lane's evidence, if the text that it scored is still the text.
pub open spec fn still_valid(evidence: Option<Evidence>, hash: u64) -> Option<(usize, u64)> {
    match evidence {
        Some(e) => if e.2 == hash {
            Some((e.0, e.1))
        } else {
            None
        },
        None => None,
    }
}

/// A paragraph is there now.
pub open spec fn is_there(store: StoreMap, source: Seq<char>, index: u32) -> bool {
    store.contains_key(source) && index < store[source].paragraphs@.len()
}

/// The hit for a paragraph with this evidence: each lane loses what it says
/// of another text, and a paragraph that no lane stands for is no hit.
pub open spec fn judged(
    store: StoreMap,
    scores: RankScores,
    fused: bool,
    source: Seq<char>,
    index: u32,
    lexical: Option<Evidence>,
    semantic: Option<Evidence>,
) -> Option<HitView> {
    if !is_there(store, source, index) {
        None
    } else {
        let paragraph = store[source].paragraphs@[index as int];
        let bm25 = still_valid(lexical, paragraph.hash);
        let vector = still_valid(semantic, paragraph.hash);
        if bm25 is None && vector is None {
            None
        } else {
            Some(
                HitView {
                    source,
                    index,
                    score: if fused {
                        fused_score(scores, bm25, vector)
                    } else {
                        match bm25 {
                            Some(b) => b.1,
                            None => 0,
                        }
                    },
                    text: paragraph.text@,
                    bm25,
                    vector,
                },
            )
        }
    }
}

/// The hit for a paragraph, if it is one.
pub open spec fn hit_of(
    store: StoreMap,
    lexical: Seq<LaneView>,
    semantic: Seq<LaneView>,
    scores: RankScores,
    source: Seq<char>,
    index: u32,
) -> Option<HitView> {
    judged(
        store,
        scores,
        semantic.len() > 0,
        source,
        index,
        last_showing(lexical, source, index, lexical.len()),
        first_showing(semantic, source, index, semantic.len()),
    )
}

/// One paragraph's key comes before another's: by source, then by index.
pub open spec fn key_before(a: HitView, b: HitView) -> bool {
    names::before(a.source, b.source) || (a.source == b.source && a.index < b.index)
}

/// One hit is served before another: by score, the greater first, then by
/// source and index.
pub open spec fn hit_before(a: HitView, b: HitView) -> bool {
    a.score > b.score || (a.score == b.score && key_before(a, b))
}

/// The hit at `i` is about this paragraph.
pub open spec fn stands_at(hits: Seq<HitView>, source: Seq<char>, index: u32, i: int) -> bool {
    0 <= i < hits.len() && hits[i].source == source && hits[i].index == index
}

/// The paragraph is among the hits.
pub open spec fn among(hits: Seq<HitView>, source: Seq<char>, index: u32) -> bool {
    exists|i: int| stands_at(hits, source, index, i)
}

/// Hits in serving order.
pub open spec fn in_serving_order(hits: Seq<HitView>) -> bool {
    forall|i: int, j: int| 0 <= i < j < hits.len() ==> hit_before(#[trigger] hits[i], #[trigger] hits[j])
}

/// `hits` holds exactly the hits of the two lanes, in serving order.
pub open spec fn is_fusion(
    store: StoreMap,
    lexical: Seq<LaneView>,
    semantic: Seq<LaneView>,
    scores: RankScores,
    hits: Seq<HitView>,
) -> bool {
    &&& in_serving_order(hits)
    &&& forall|i: int|
        0 <= i < hits.len() ==> hit_of(store, lexical, semantic, scores, (#[trigger] hits[i]).source, hits[i].index)
            == Some(hits[i])
    &&& forall|source: Seq<char>, index: u32| #[trigger]
        hit_of(store, lexical, semantic, scores, source, index) is Some ==> among(hits, source, index)
}

/// The fusion of two lanes.
pub open spec fn fusion(store: StoreMap, lexical: Seq<LaneView>, semantic: Seq<LaneView>, scores: RankScores) -> Seq<HitView> {
    choose|hits: Seq<HitView>| is_fusion(store, lexical, semantic, scores, hits)
}

/// The first `limit` of a sequence.
pub open spec fn cut<A>(s: Seq<A>, limit: usize) -> Seq<A> {
    if s.len() <= limit {
        s
    } else {
        s.take(limit as int)
    }
}

proof fn hit_order_is_strict(a: HitView, b: HitView)
    ensures
        !(hit_before(a, b) && hit_before(b, a)),
        !hit_before(a, a),
{
    names::before_irreflexive(a.source);
    if names::before(a.source, b.source) && names::before(b.source, a.source) {
        names::before_transitive(a.source, b.source, a.source);
    }
}

proof fn fusions_agree_upto(
    store: StoreMap,
    lexical: Seq<LaneView>,
    semantic: Seq<LaneView>,
    scores: RankScores,
    a: Seq<HitView>,
    b: Seq<HitView>,
    n: int,
)
    requires
        is_fusion(store, lexical, semantic, scores, a),
        is_fusion(store, lexical, semantic, scores, b),
        0 <= n <= a.len(),
        n <= b.len(),
    ensures
        forall|i: int| 0 <= i < n ==> a[i] == b[i],
    decreases n,
{
    if n > 0 {
        fusions_agree_upto(store, lexical, semantic, scores, a, b, n - 1);
        let p = n - 1;
        if a[p] != b[p] {
            let y = place_in(store, lexical, semantic, scores, a, b, p);
            let x = place_in(store, lexical, semantic, scores, b, a, p);
            hit_order_is_strict(a[p], b[p]);
            hit_order_is_strict(a[p], a[p]);
            hit_order_is_strict(b[p], b[p]);
            if y < p {
                assert(hit_before(a[y], a[p]));
            }
            if x < p {
                assert(hit_before(b[x], b[p]));
            }
            assert(hit_before(b[p], b[y]));
            assert(hit_before(a[p], a[x]));
        }
    }
}

/// Where a hit of one fusion stands in another.
proof fn place_in(
    store: StoreMap,
    lexical: Seq<LaneView>,
    semantic: Seq<LaneView>,
    scores: RankScores,
    a: Seq<HitView>,
    b: Seq<HitView>,
    p: int,
) -> (y: int)
    requires
        is_fusion(store, lexical, semantic, scores, a),
        is_fusion(store, lexical, semantic, scores, b),
        0 <= p < a.len(),
    ensures
        0 <= y < b.len(),
        b[y] == a[p],
{
    assert(hit_of(store, lexical, semantic, scores, a[p].source, a[p].index) == Some(a[p]));
    assert(among(b, a[p].source, a[p].index));
    let y = choose|y: int| stands_at(b, a[p].source, a[p].index, y);
    assert(hit_of(store, lexical, semantic, scores, b[y].source, b[y].index) == Some(b[y]));
    y
}

/// Two fusions of the same lanes are the same.
pub proof fn fusion_unique(
    store: StoreMap,
    lexical: Seq<LaneView>,
    semantic: Seq<LaneView>,
    scores: RankScores,
    a: Seq<HitView>,
    b: Seq<HitView>,
)
    requires
        is_fusion(store, lexical, semantic, scores, a),
        is_fusion(store, lexical, semantic, scores, b),
    ensures
        a == b,
{
    let n = if a.len() <= b.len() {
        a.len() as int
    } else {
        b.len() as int
    };
    fusions_agree_upto(store, lexical, semantic, scores, a, b, n);
    if a.len() > n {
        let y = place_in(store, lexical, semantic, scores, a, b, n);
        assert(a[y] == b[y]);
        hit_order_is_strict(a[n], a[n]);
        assert(hit_before(a[y], a[n]));
    }
    if b.len() > n {
        let y = place_in(store, lexical, semantic, scores, b, a, n);
        assert(a[y] == b[y]);
        hit_order_is_strict(b[n], b[n]);
        assert(hit_before(b[y], b[n]));
    }
    assert(a =~= b);
}

/// What the lanes say of one paragraph of a source.
pub struct LaneSlot {
    pub index: u32,
    pub bm25: Option<Evidence>,
    pub vector: Option<Evidence>,
}

/// The slots stand in ascending paragraph order.
pub open spec fn slots_ok(slots: Seq<LaneSlot>) -> bool {
    forall|i: int, j: int| 0 <= i < j < slots.len() ==> (#[trigger] slots[i]).index < (#[trigger] slots[j]).index
}

pub open spec fn slot_is(slots: Seq<LaneSlot>, index: u32, i: int) -> bool {
    0 <= i < slots.len() && slots[i].index == index
}

/// What the slots say of a paragraph.
pub open spec fn said(slots: Seq<LaneSlot>, index: u32) -> (Option<Evidence>, Option<Evidence>) {
    if exists|i: int| slot_is(slots, index, i) {
        let i = choose|i: int| slot_is(slots, index, i);
        (slots[i].bm25, slots[i].vector)
    } else {
        (None, None)
    }
}

proof fn said_at(slots: Seq<LaneSlot>, i: int)
    requires
        slots_ok(slots),
        0 <= i < slots.len(),
    ensures
        said(slots, slots[i].index) == (slots[i].bm25, slots[i].vector),
{
    assert(slot_is(slots, slots[i].index, i));
    let j = choose|j: int| slot_is(slots, slots[i].index, j);
    assert(slot_is(slots, slots[i].index, j));
    if i < j {
        assert(slots[i].index < slots[j].index);
    }
    if j < i {
        assert(slots[j].index < slots[i].index);
    }
}

pub type LaneMap = NameMap<Vec<LaneSlot>>;

pub open spec fn lanes_ok(lanes: LaneMap) -> bool {
    lanes.wf() && forall|s: Seq<char>| lanes@.contains_key(s) ==> slots_ok((#[trigger] lanes@[s])@)
}

/// What the lanes say of a paragraph.
pub open spec fn lane_says(lanes: Map<Seq<char>, Vec<LaneSlot>>, source: Seq<char>, index: u32) -> (
    Option<Evidence>,
    Option<Evidence>,
) {
    if lanes.contains_key(source) {
        said(lanes[source]@, index)
    } else {
        (None, None)
    }
}

/// What is said once new evidence came in: the keyword lane's last showing
/// counts, and the vector lane's first.
pub open spec fn joined(
    was: (Option<Evidence>, Option<Evidence>),
    bm25: Option<Evidence>,
    vector: Option<Evidence>,
) -> (Option<Evidence>, Option<Evidence>) {
    (
        if bm25 is Some {
            bm25
        } else {
            was.0
        },
        if was.1 is Some {
            was.1
        } else {
            vector
        },
    )
}

/// The first slot whose paragraph is not before `index`.
fn slot_position(slots: &Vec<LaneSlot>, index: u32) -> (res: usize)
    requires
        slots_ok(slots@),
    ensures
        res <= slots.len(),
        forall|i: int| 0 <= i < res ==> (#[trigger] slots@[i]).index < index,
        forall|i: int| res <= i < slots.len() ==> (#[trigger] slots@[i]).index >= index,
{
    let mut lo: usize = 0;
    let mut hi: usize = slots.len();
    while lo < hi
        invariant
            slots_ok(slots@),
            lo <= hi <= slots.len(),
            forall|i: int| 0 <= i < lo ==> (#[trigger] slots@[i]).index < index,
            forall|i: int| hi <= i < slots.len() ==> (#[trigger] slots@[i]).index >= index,
        decreases hi - lo,
    {
        let mid: usize = lo + (hi - lo) / 2;
        if slots[mid].index < index {
            assert forall|i: int| 0 <= i < mid + 1 implies (#[trigger] slots@[i]).index < index by {
                if i < mid {
                    assert(slots@[i].index < slots@[mid as int].index);
                }
            }
            lo = mid + 1;
        } else {
            assert forall|i: int| mid <= i < slots.len() implies (#[trigger] slots@[i]).index >= index by {
                if i > mid {
                    assert(slots@[mid as int].index < slots@[i].index);
                }
            }
            hi = mid;
        }
    }
    lo
}

/// Takes evidence for a paragraph into its source's slots.
fn join_slot(slots: &mut Vec<LaneSlot>, index: u32, bm25: Option<Evidence>, vector: Option<Evidence>)
    requires
        slots_ok(old(slots)@),
    ensures
        slots_ok(final(slots)@),
        said(final(slots)@, index) == joined(said(old(slots)@, index), bm25, vector),
        forall|x: u32| x != index ==> #[trigger] said(final(slots)@, x) == said(old(slots)@, x),
{
    let at: usize = slot_position(slots, index);
    let ghost was = slots@;
    if at < slots.len() && slots[at].index == index {
        proof {
            said_at(was, at as int);
        }
        let now_bm25 = if bm25.is_some() {
            bm25
        } else {
            slots[at].bm25
        };
        let now_vector = if slots[at].vector.is_some() {
            slots[at].vector
        } else {
            vector
        };
        slots.set(at, LaneSlot { index, bm25: now_bm25, vector: now_vector });
        proof {
            said_at(slots@, at as int);
            assert forall|x: u32| x != index implies #[trigger] said(slots@, x) == said(was, x) by {
                same_elsewhere(was, slots@, x, at as int);
            }
        }
    } else {
        slots.insert(at, LaneSlot { index, bm25, vector });
        proof {
            let now = slots@;
            assert forall|i: int, j: int| 0 <= i < j < now.len() implies (#[trigger] now[i]).index < (#[trigger] now[j]).index by {
                let a = if i < at { i } else { i - 1 };
                let b = if j < at { j } else { j - 1 };
                if i != at {
                    assert(now[i] == was[a]);
                }
                if j != at {
                    assert(now[j] == was[b]);
                }
            }
            assert(now[at as int].index == index);
            said_at(now, at as int);
            assert forall|i: int| !slot_is(was, index, i) by {
                if slot_is(was, index, i) {
                    if i < at {
                        assert(was[i].index < index);
                    } else {
                        assert(was[i].index >= index);
                        assert(at < was.len());
                        if at < i {
                            assert(was[at as int].index < was[i].index);
                        }
                    }
                }
            }
            assert forall|x: u32| x != index implies #[trigger] said(now, x) == said(was, x) by {
                if exists|i: int| slot_is(was, x, i) {
                    let i = choose|i: int| slot_is(was, x, i);
                    let k = if i < at { i } else { i + 1 };
                    assert(now[k] == was[i]);
                    said_at(now, k);
                    said_at(was, i);
                } else if exists|k: int| slot_is(now, x, k) {
                    let k = choose|k: int| slot_is(now, x, k);
                    let i = if k < at { k } else { k - 1 };
                    assert(now[k] == was[i]);
                    assert(slot_is(was, x, i));
                }
            }
        }
    }
}

proof fn same_elsewhere(was: Seq<LaneSlot>, now: Seq<LaneSlot>, x: u32, at: int)
    requires
        slots_ok(was),
        slots_ok(now),
        was.len() == now.len(),
        0 <= at < was.len(),
        was[at].index == now[at].index,
        was[at].index != x,
        forall|i: int| 0 <= i < was.len() && i != at ==> was[i] == now[i],
    ensures
        said(was, x) == said(now, x),
{
    if exists|i: int| slot_is(was, x, i) {
        let i = choose|i: int| slot_is(was, x, i);
        assert(slot_is(now, x, i));
        said_at(was, i);
        said_at(now, i);
    } else if exists|i: int| slot_is(now, x, i) {
        let i = choose|i: int| slot_is(now, x, i);
        assert(slot_is(was, x, i));
    }
}

/// Takes evidence for a paragraph in.
fn join_lane(lanes: &mut LaneMap, source: &str, index: u32, bm25: Option<Evidence>, vector: Option<Evidence>)
    requires
        lanes_ok(*old(lanes)),
    ensures
        lanes_ok(*final(lanes)),
        lane_says(final(lanes)@, source@, index) == joined(lane_says(old(lanes)@, source@, index), bm25, vector),
        forall|s: Seq<char>, x: u32|
            s != source@ || x != index ==> #[trigger] lane_says(final(lanes)@, s, x) == lane_says(old(lanes)@, s, x),
{
    let ghost was = lanes@;
    if !lanes.contains(source) {
        let fresh: Vec<LaneSlot> = Vec::new();
        lanes.insert(source.to_owned(), fresh);
    }
    let ghost mid = lanes@;
    assert forall|x: u32| #[trigger] lane_says(mid, source@, x) == lane_says(was, source@, x) by {
        if !was.contains_key(source@) {
            assert(mid[source@]@.len() == 0);
        }
    }
    match lanes.get_mut(source) {
        Some(slots) => {
            join_slot(slots, index, bm25, vector);
        },
        None => {},
    }
    assert forall|s: Seq<char>, x: u32| s != source@ || x != index implies #[trigger] lane_says(lanes@, s, x)
        == lane_says(was, s, x) by {
        if s == source@ {
            assert(lane_says(mid, s, x) == lane_says(was, s, x));
        }
    }
}

/// What two lanes say, gathered by paragraph.
fn gather(lexical: &Vec<LaneHit>, semantic: &Vec<LaneHit>) -> (res: LaneMap)
    ensures
        lanes_ok(res),
        forall|s: Seq<char>, x: u32| #[trigger]
            lane_says(res@, s, x) == (
                last_showing(lane_views(lexical@), s, x, lexical.len() as nat),
                first_showing(lane_views(semantic@), s, x, semantic.len() as nat),
            ),
{
    let mut lanes: LaneMap = NameMap::new();
    let ghost words = lane_views(lexical@);
    let ghost rows = lane_views(semantic@);
    let mut i: usize = 0;
    while i < lexical.len()
        invariant
            i <= lexical.len(),
            words == lane_views(lexical@),
            lanes_ok(lanes),
            forall|s: Seq<char>, x: u32| #[trigger]
                lane_says(lanes@, s, x) == (last_showing(words, s, x, i as nat), None::<Evidence>),
        decreases lexical.len() - i,
    {
        let hit = &lexical[i];
        assert(words[i as int] == hit@);
        let ghost was = lanes@;
        join_lane(&mut lanes, hit.source.as_str(), hit.index, Some((i + 1, hit.score, hit.hash)), None);
        assert forall|s: Seq<char>, x: u32| #[trigger] lane_says(lanes@, s, x) == (
            last_showing(words, s, x, (i + 1) as nat),
            None::<Evidence>,
        ) by {
            assert(lane_says(was, s, x) == (last_showing(words, s, x, i as nat), None::<Evidence>));
        }
        i = i + 1;
    }
    let mut j: usize = 0;
    while j < semantic.len()
        invariant
            j <= semantic.len(),
            rows == lane_views(semantic@),
            lanes_ok(lanes),
            forall|s: Seq<char>, x: u32| #[trigger]
                lane_says(lanes@, s, x) == (
                    last_showing(words, s, x, lexical.len() as nat),
                    first_showing(rows, s, x, j as nat),
                ),
        decreases semantic.len() - j,
    {
        let hit = &semantic[j];
        assert(rows[j as int] == hit@);
        let ghost was = lanes@;
        join_lane(&mut lanes, hit.source.as_str(), hit.index, None, Some((j + 1, hit.score, hit.hash)));
        assert forall|s: Seq<char>, x: u32| #[trigger] lane_says(lanes@, s, x) == (
            last_showing(words, s, x, lexical.len() as nat),
            first_showing(rows, s, x, (j + 1) as nat),
        ) by {
            assert(lane_says(was, s, x) == (
                last_showing(words, s, x, lexical.len() as nat),
                first_showing(rows, s, x, j as nat),
            ));
        }
        j = j + 1;
    }
    lanes
}

fn valid_evidence(evidence: Option<Evidence>, hash: u64) -> (res: Option<(usize, u64)>)
    ensures
        res == still_valid(evidence, hash),
{
    match evidence {
        Some(e) => if e.2 == hash {
            Some((e.0, e.1))
        } else {
            None
        },
        None => None,
    }
}

/// Judges one paragraph.
fn judge(store: &PassageStore, scores: &RankScores, fused: bool, source: &String, slot: &LaneSlot) -> (res: Option<
    PassageSearchHit,
>)
    requires
        store.wf(),
    ensures
        match res {
            Some(hit) => judged(store@, *scores, fused, source@, slot.index, slot.bm25, slot.vector) == Some(hit@),
            None => judged(store@, *scores, fused, source@, slot.index, slot.bm25, slot.vector) is None,
        },
{
    let record = match store.get(source.as_str()) {
        None => {
            return None;
        },
        Some(record) => record,
    };
    let paragraph = match record.paragraph(slot.index) {
        None => {
            return None;
        },
        Some(paragraph) => paragraph,
    };
    let bm25 = valid_evidence(slot.bm25, paragraph.hash);
    let vector = valid_evidence(slot.vector, paragraph.hash);
    if bm25.is_none() && vector.is_none() {
        return None;
    }
    let score: u64 = if fused {
        match bm25 {
            Some(b) => match vector {
                Some(_) => lookup_score(&scores.both, b.0),
                None => lookup_score(&scores.single, b.0),
            },
            None => match vector {
                Some(v) => lookup_score(&scores.single, v.0),
                None => 0,
            },
        }
    } else {
        match bm25 {
            Some(b) => b.1,
            None => 0,
        }
    };
    Some(
        PassageSearchHit {
            source: source.clone(),
            index: slot.index,
            score,
            text: paragraph.text.clone(),
            bm25,
            vector,
        },
    )
}

/// The hits that were judged so far: in key order, each as it should be.
pub open spec fn judged_rightly(
    store: StoreMap,
    lexical: Seq<LaneView>,
    semantic: Seq<LaneView>,
    scores: RankScores,
    hits: Seq<HitView>,
) -> bool {
    &&& forall|i: int, j: int| 0 <= i < j < hits.len() ==> key_before(#[trigger] hits[i], #[trigger] hits[j])
    &&& forall|i: int|
        0 <= i < hits.len() ==> hit_of(store, lexical, semantic, scores, (#[trigger] hits[i]).source, hits[i].index)
            == Some(hits[i])
}

/// Every hit is of a source before `source`, or of it and of a paragraph
/// before `index`.
pub open spec fn all_before(hits: Seq<HitView>, source: Seq<char>, index: int) -> bool {
    forall|i: int|
        0 <= i < hits.len() ==> names::before((#[trigger] hits[i]).source, source) || (hits[i].source == source
            && hits[i].index < index)
}

proof fn pushed_is_among(hits: Seq<HitView>, hit: HitView, source: Seq<char>, index: u32)
    ensures
        among(hits.push(hit), source, index) == (among(hits, source, index) || (hit.source == source && hit.index == index)),
{
    let now = hits.push(hit);
    if among(hits, source, index) {
        let i = choose|i: int| stands_at(hits, source, index, i);
        assert(stands_at(now, source, index, i));
    }
    if hit.source == source && hit.index == index {
        assert(stands_at(now, source, index, hits.len() as int));
    }
    if among(now, source, index) {
        let i = choose|i: int| stands_at(now, source, index, i);
        if i < hits.len() {
            assert(stands_at(hits, source, index, i));
        }
    }
}

/// Judges every paragraph of one source, in order.
fn judge_source(
    store: &PassageStore,
    lexical: &Vec<LaneHit>,
    semantic: &Vec<LaneHit>,
    scores: &RankScores,
    lanes: &LaneMap,
    at: usize,
    hits: &mut Vec<PassageSearchHit>,
)
    requires
        store.wf(),
        lanes_ok(*lanes),
        at < lanes.order().len(),
        forall|s: Seq<char>, x: u32| #[trigger]
            lane_says(lanes@, s, x) == (
                last_showing(lane_views(lexical@), s, x, lexical.len() as nat),
                first_showing(lane_views(semantic@), s, x, semantic.len() as nat),
            ),
        judged_rightly(store@, lane_views(lexical@), lane_views(semantic@), *scores, hit_views(old(hits)@)),
        all_before(hit_views(old(hits)@), lanes.order()[at as int], 0),
    ensures
        judged_rightly(store@, lane_views(lexical@), lane_views(semantic@), *scores, hit_views(final(hits)@)),
        forall|i: int|
            0 <= i < final(hits)@.len() ==> (#[trigger] hit_views(final(hits)@)[i]).source == lanes.order()[at as int]
                || names::before(hit_views(final(hits)@)[i].source, lanes.order()[at as int]),
        forall|s: Seq<char>, x: u32|
            #[trigger] among(hit_views(old(hits)@), s, x) ==> among(hit_views(final(hits)@), s, x),
        forall|x: u32|
            hit_of(
                store@,
                lane_views(lexical@),
                lane_views(semantic@),
                *scores,
                lanes.order()[at as int],
                x,
            ) is Some ==> #[trigger] among(hit_views(final(hits)@), lanes.order()[at as int], x),
{
    let ghost words = lane_views(lexical@);
    let ghost rows = lane_views(semantic@);
    let source = lanes.key_at(at);
    let slots = lanes.value_at(at);
    let fused = semantic.len() > 0;
    let mut i: usize = 0;
    while i < slots.len()
        invariant
            store.wf(),
            lanes_ok(*lanes),
            at < lanes.order().len(),
            source@ == lanes.order()[at as int],
            lanes@.contains_key(source@),
            *slots == lanes@[source@],
            slots_ok(slots@),
            fused == (semantic.len() > 0),
            words == lane_views(lexical@),
            rows == lane_views(semantic@),
            forall|s: Seq<char>, x: u32| #[trigger]
                lane_says(lanes@, s, x) == (
                    last_showing(words, s, x, lexical.len() as nat),
                    first_showing(rows, s, x, semantic.len() as nat),
                ),
            i <= slots.len(),
            judged_rightly(store@, words, rows, *scores, hit_views(hits@)),
            i < slots.len() ==> all_before(hit_views(hits@), source@, slots@[i as int].index as int),
            forall|k: int|
                0 <= k < hits@.len() ==> (#[trigger] hit_views(hits@)[k]).source == source@ || names::before(
                    hit_views(hits@)[k].source,
                    source@,
                ),
            forall|s: Seq<char>, x: u32|
                #[trigger] among(hit_views(old(hits)@), s, x) ==> among(hit_views(hits@), s, x),
            forall|k: int|
                0 <= k < i && hit_of(store@, words, rows, *scores, source@, (#[trigger] slots@[k]).index) is Some ==> among(
                    hit_views(hits@),
                    source@,
                    slots@[k].index,
                ),
        decreases slots.len() - i,
    {
        let slot = &slots[i];
        let ghost was = hits@;
        proof {
            said_at(slots@, i as int);
            assert(lane_says(lanes@, source@, slot.index) == (slot.bm25, slot.vector));
        }
        if let Some(hit) = judge(store, scores, fused, source, slot) {
            hits.push(hit);
            assert(hit_views(hits@) =~= hit_views(was).push(hit@));
            assert(hit_of(store@, words, rows, *scores, source@, slot.index) == Some(hit@));
            proof {
                assert forall|s: Seq<char>, x: u32| #[trigger] among(hit_views(hits@), s, x) == (among(
                    hit_views(was),
                    s,
                    x,
                ) || (hit@.source == s && hit@.index == x)) by {
                    pushed_is_among(hit_views(was), hit@, s, x);
                }
            }
        }
        proof {
            if i + 1 < slots.len() {
                assert(slots@[i as int].index < slots@[i + 1].index);
            }
        }
        i = i + 1;
    }
    proof {
        assert forall|x: u32| hit_of(store@, words, rows, *scores, source@, x) is Some implies #[trigger] among(
            hit_views(hits@),
            source@,
            x,
        ) by {
            assert(lane_says(lanes@, source@, x) == said(slots@, x));
            if exists|k: int| slot_is(slots@, x, k) {
                let k = choose|k: int| slot_is(slots@, x, k);
                assert(slots@[k].index == x);
            }
        }
    }
}

/// Every hit of two lanes, in key order.
fn judge_all(
    store: &PassageStore,
    lexical: &Vec<LaneHit>,
    semantic: &Vec<LaneHit>,
    scores: &RankScores,
) -> (hits: Vec<PassageSearchHit>)
    requires
        store.wf(),
    ensures
        judged_rightly(store@, lane_views(lexical@), lane_views(semantic@), *scores, hit_views(hits@)),
        forall|s: Seq<char>, x: u32| #[trigger]
            hit_of(store@, lane_views(lexical@), lane_views(semantic@), *scores, s, x) is Some ==> among(
                hit_views(hits@),
                s,
                x,
            ),
{
    let ghost words = lane_views(lexical@);
    let ghost rows = lane_views(semantic@);
    let lanes = gather(lexical, semantic);
    let ghost order = lanes.order();
    let mut hits: Vec<PassageSearchHit> = Vec::new();
    let n: usize = lanes.len();
    let mut i: usize = 0;
    proof {
        lanes.order_is_domain();
    }
    while i < n
        invariant
            store.wf(),
            lanes_ok(lanes),
            order == lanes.order(),
            n == order.len(),
            i <= n,
            names::ascending(order),
            words == lane_views(lexical@),
            rows == lane_views(semantic@),
            forall|s: Seq<char>, x: u32| #[trigger]
                lane_says(lanes@, s, x) == (
                    last_showing(words, s, x, lexical.len() as nat),
                    first_showing(rows, s, x, semantic.len() as nat),
                ),
            judged_rightly(store@, words, rows, *scores, hit_views(hits@)),
            i < n ==> all_before(hit_views(hits@), order[i as int], 0),
            forall|k: int, x: u32|
                0 <= k < i && hit_of(store@, words, rows, *scores, order[k], x) is Some ==> #[trigger] among(
                    hit_views(hits@),
                    order[k],
                    x,
                ),
        decreases n - i,
    {
        let ghost was = hits@;
        judge_source(store, lexical, semantic, scores, &lanes, i, &mut hits);
        proof {
            if i + 1 < n {
                assert(names::before(order[i as int], order[i + 1]));
                assert forall|k: int| 0 <= k < hit_views(hits@).len() implies names::before(
                    (#[trigger] hit_views(hits@)[k]).source,
                    order[i + 1],
                ) by {
                    if hit_views(hits@)[k].source != order[i as int] {
                        names::before_transitive(hit_views(hits@)[k].source, order[i as int], order[i + 1]);
                    }
                }
            }
            assert forall|k: int, x: u32|
                0 <= k < i + 1 && hit_of(store@, words, rows, *scores, order[k], x) is Some implies #[trigger] among(
                hit_views(hits@),
                order[k],
                x,
            ) by {
                if k < i {
                    assert(among(hit_views(was), order[k], x));
                }
            }
        }
        i = i + 1;
    }
    proof {
        assert forall|s: Seq<char>, x: u32| #[trigger] hit_of(store@, words, rows, *scores, s, x) is Some implies among(
            hit_views(hits@),
            s,
            x,
        ) by {
            assert(lane_says(lanes@, s, x) == (
                last_showing(words, s, x, lexical.len() as nat),
                first_showing(rows, s, x, semantic.len() as nat),
            ));
            if lanes@.contains_key(s) {
                lanes.order_is_domain();
                assert(order.contains(s));
                let k = choose|k: int| 0 <= k < order.len() && order[k] == s;
                assert(among(hit_views(hits@), order[k], x));
            }
        }
    }
    hits
}

/// The keys by which hits in key order are ranked.
pub open spec fn serving_keys(hits: Seq<HitView>) -> Seq<(u64, u64)> {
    hits.map_values(|h: HitView| ((u64::MAX - h.score) as u64, 0u64))
}

/// Ranking hits in key order puts them in serving order.
proof fn ranked_is_fusion(
    store: StoreMap,
    lexical: Seq<LaneView>,
    semantic: Seq<LaneView>,
    scores: RankScores,
    hits: Seq<HitView>,
    order: Seq<usize>,
    ranked: Seq<HitView>,
)
    requires
        judged_rightly(store, lexical, semantic, scores, hits),
        forall|s: Seq<char>, x: u32| #[trigger]
            hit_of(store, lexical, semantic, scores, s, x) is Some ==> among(hits, s, x),
        ranking::is_ranking(serving_keys(hits), order),
        ranked.len() == order.len(),
        forall|k: int| 0 <= k < ranked.len() ==> #[trigger] ranked[k] == hits[order[k] as int],
    ensures
        is_fusion(store, lexical, semantic, scores, ranked),
        fusion(store, lexical, semantic, scores) == ranked,
{
    let keys = serving_keys(hits);
    assert forall|i: int, j: int| 0 <= i < j < ranked.len() implies hit_before(#[trigger] ranked[i], #[trigger] ranked[j]) by {
        let a = order[i] as int;
        let b = order[j] as int;
        assert(ranking::ranks_before(keys, order[i] as int, order[j] as int));
        assert(keys[a].0 == u64::MAX - hits[a].score);
        assert(keys[b].0 == u64::MAX - hits[b].score);
        if hits[a].score == hits[b].score {
            assert(a < b);
            assert(key_before(hits[a], hits[b]));
        }
    }
    assert forall|i: int| 0 <= i < ranked.len() implies hit_of(
        store,
        lexical,
        semantic,
        scores,
        (#[trigger] ranked[i]).source,
        ranked[i].index,
    ) == Some(ranked[i]) by {
        assert(ranked[i] == hits[order[i] as int]);
    }
    assert forall|s: Seq<char>, x: u32| #[trigger] hit_of(store, lexical, semantic, scores, s, x) is Some implies among(
        ranked,
        s,
        x,
    ) by {
        let k = choose|k: int| stands_at(hits, s, x, k);
        assert(stands_at(hits, s, x, k));
        assert(ranking::listed(order, k));
        let a = choose|a: int| 0 <= a < order.len() && #[trigger] order[a] == k;
        assert(ranked[a] == hits[order[a] as int]);
        assert(stands_at(ranked, s, x, a));
    }
    assert(is_fusion(store, lexical, semantic, scores, ranked));
    let chosen = fusion(store, lexical, semantic, scores);
    fusion_unique(store, lexical, semantic, scores, chosen, ranked);
}

/// Fuses the two lanes into the served ranking. Each lane is held against
/// the paragraph as it is now: a lane that scored another text loses exactly
/// its own evidence.
pub fn fuse_passage_lanes(
    store: &PassageStore,
    lexical: &Vec<LaneHit>,
    semantic: &Vec<LaneHit>,
    scores: &RankScores,
    limit: usize,
) -> (res: Vec<PassageSearchHit>)
    requires
        store.wf(),
    ensures
        is_fusion(
            store@,
            lane_views(lexical@),
            lane_views(semantic@),
            *scores,
            fusion(store@, lane_views(lexical@), lane_views(semantic@), *scores),
        ),
        hit_views(res@) == cut(fusion(store@, lane_views(lexical@), lane_views(semantic@), *scores), limit),
{
    let hits = judge_all(store, lexical, semantic, scores);
    let ghost all = hit_views(hits@);
    let mut keys: Vec<(u64, u64)> = Vec::new();
    let mut i: usize = 0;
    while i < hits.len()
        invariant
            i <= hits.len(),
            all == hit_views(hits@),
            keys@ == serving_keys(all).take(i as int),
        decreases hits.len() - i,
    {
        assert(all[i as int] == hits@[i as int]@);
        keys.push((u64::MAX - hits[i].score, 0));
        assert(keys@ =~= serving_keys(all).take(i + 1));
        i = i + 1;
    }
    assert(keys@ =~= serving_keys(all));
    let order = rank(&keys);
    let ghost ranked = Seq::new(order@.len(), |k: int| all[order@[k] as int]);
    proof {
        ranked_is_fusion(store@, lane_views(lexical@), lane_views(semantic@), *scores, all, order@, ranked);
    }
    let mut res: Vec<PassageSearchHit> = Vec::new();
    let mut k: usize = 0;
    while k < order.len() && k < limit
        invariant
            k <= order.len(),
            k <= limit,
            all == hit_views(hits@),
            ranking::is_ranking(serving_keys(all), order@),
            ranked == Seq::new(order@.len(), |k: int| all[order@[k] as int]),
            hit_views(res@) == ranked.take(k as int),
        decreases order.len() - k,
    {
        let at: usize = order[k];
        assert(at < hits.len());
        let hit = hits[at].copy();
        let ghost was = res@;
        res.push(hit);
        assert(hit_views(res@) =~= hit_views(was).push(hit@));
        assert(hit_views(res@) =~= ranked.take(k + 1));
        k = k + 1;
    }
    assert(hit_views(res@) =~= cut(ranked, limit));
    res
}

/// For each hit of the keyword lane, the rank of its paragraph in the vector
/// lane: what [`RankScores`] is filled from.
pub fn paired_ranks(lexical: &Vec<LaneHit>, semantic: &Vec<LaneHit>) -> (res: Vec<Option<usize>>)
    ensures
        res.len() == lexical.len(),
        forall|i: int|
            0 <= i < res.len() ==> #[trigger] res@[i] == match first_showing(
                lane_views(semantic@),
                lexical@[i].source@,
                lexical@[i].index,
                semantic.len() as nat,
            ) {
                Some(e) => Some(e.0),
                None => None::<usize>,
            },
{
    let lanes = gather(lexical, semantic);
    let ghost rows = lane_views(semantic@);
    let ghost words = lane_views(lexical@);
    let mut res: Vec<Option<usize>> = Vec::new();
    let mut i: usize = 0;
    while i < lexical.len()
        invariant
            i <= lexical.len(),
            lanes_ok(lanes),
            rows == lane_views(semantic@),
            forall|s: Seq<char>, x: u32| #[trigger]
                lane_says(lanes@, s, x) == (
                    last_showing(words, s, x, lexical.len() as nat),
                    first_showing(rows, s, x, semantic.len() as nat),
                ),
            res.len() == i,
            forall|k: int|
                0 <= k < i ==> #[trigger] res@[k] == match first_showing(
                    rows,
                    lexical@[k].source@,
                    lexical@[k].index,
                    semantic.len() as nat,
                ) {
                    Some(e) => Some(e.0),
                    None => None::<usize>,
                },
        decreases lexical.len() - i,
    {
        let hit = &lexical[i];
        let mut found: Option<usize> = None;
        if let Some(slots) = lanes.get(hit.source.as_str()) {
            let at: usize = slot_position(slots, hit.index);
            if at < slots.len() && slots[at].index == hit.index {
                proof {
                    said_at(slots@, at as int);
                }
                if let Some(e) = slots[at].vector {
                    found = Some(e.0);
                }
            } else {
                assert forall|k: int| !slot_is(slots@, hit.index, k) by {
                    if slot_is(slots@, hit.index, k) {
                        if k < at {
                            assert(slots@[k].index < hit.index);
                        } else {
                            assert(slots@[at as int].index >= hit.index);
                            if at < k {
                                assert(slots@[at as int].index < slots@[k].index);
                            }
                        }
                    }
                }
            }
        }
        assert(lane_says(lanes@, hit.source@, hit.index) == (
            last_showing(words, hit.source@, hit.index, lexical.len() as nat),
            first_showing(rows, hit.source@, hit.index, semantic.len() as nat),
        ));
        res.push(found);
        i = i + 1;
    }
    res
}

/// Nothing is served with a stale score: every hit's text is the paragraph's
/// current text, and each lane's evidence is of exactly that text.
pub proof fn hits_are_of_current_text(
    store: StoreMap,
    lexical: Seq<LaneView>,
    semantic: Seq<LaneView>,
    scores: RankScores,
    hits: Seq<HitView>,
    i: int,
)
    requires
        is_fusion(store, lexical, semantic, scores, hits),
        0 <= i < hits.len(),
    ensures
        ({
            let hit = hits[i];
            let paragraph = store[hit.source].paragraphs@[hit.index as int];
            let b = last_showing(lexical, hit.source, hit.index, lexical.len());
            let v = first_showing(semantic, hit.source, hit.index, semantic.len());
            &&& is_there(store, hit.source, hit.index)
            &&& hit.text == paragraph.text@
            &&& hit.bm25 is Some || hit.vector is Some
            &&& hit.bm25 is Some ==> b is Some && (b->0).2 == paragraph.hash && hit.bm25->0 == ((b->0).0, (b->0).1)
            &&& hit.vector is Some ==> v is Some && (v->0).2 == paragraph.hash && hit.vector->0 == ((v->0).0, (v->0).1)
        }),
{
    assert(hit_of(store, lexical, semantic, scores, hits[i].source, hits[i].index) == Some(hits[i]));
}

/// A stale lane does not veto the other: a paragraph that the keyword lane
/// scored as it is now is a hit, whatever the vector lane saw.
pub proof fn fresh_evidence_is_served(
    store: StoreMap,
    lexical: Seq<LaneView>,
    semantic: Seq<LaneView>,
    scores: RankScores,
    hits: Seq<HitView>,
    source: Seq<char>,
    index: u32,
)
    requires
        is_fusion(store, lexical, semantic, scores, hits),
        is_there(store, source, index),
        ({
            let b = last_showing(lexical, source, index, lexical.len());
            b is Some && (b->0).2 == store[source].paragraphs@[index as int].hash
        }),
    ensures
        among(hits, source, index),
{
    assert(hit_of(store, lexical, semantic, scores, source, index) is Some);
}

/// Without the vector lane the hits keep their keyword scores.
pub proof fn lexical_only_keeps_raw_scores(
    store: StoreMap,
    lexical: Seq<LaneView>,
    scores: RankScores,
    hits: Seq<HitView>,
    i: int,
)
    requires
        is_fusion(store, lexical, Seq::empty(), scores, hits),
        0 <= i < hits.len(),
    ensures
        hits[i].bm25 is Some && hits[i].score == (hits[i].bm25->0).1 && hits[i].vector is None,
{
    assert(hit_of(store, lexical, Seq::empty(), scores, hits[i].source, hits[i].index) == Some(hits[i]));
}

proof fn hit_order_is_transitive(a: HitView, b: HitView, c: HitView)
    requires
        hit_before(a, b),
        hit_before(b, c),
    ensures
        hit_before(a, c),
{
    if names::before(a.source, b.source) && names::before(b.source, c.source) {
        names::before_transitive(a.source, b.source, c.source);
    }
}

/// Of the hits of two paragraphs, one is served before the other.
proof fn hit_order_is_total(a: HitView, b: HitView)
    requires
        a.source != b.source || a.index != b.index,
    ensures
        hit_before(a, b) || hit_before(b, a),
{
    names::before_total(a.source, b.source);
}

/// A hit of another paragraph, put where it belongs.
proof fn put_in_order(hits: Seq<HitView>, hit: HitView) -> (res: Seq<HitView>)
    requires
        in_serving_order(hits),
        !among(hits, hit.source, hit.index),
    ensures
        in_serving_order(res),
        forall|x: HitView| #[trigger] res.contains(x) <==> hits.contains(x) || x == hit,
    decreases hits.len(),
{
    if hits.len() == 0 {
        let res = hits.push(hit);
        assert(res[0] == hit);
        res
    } else {
        let rest = hits.drop_last();
        let last = hits.last();
        assert(!stands_at(hits, hit.source, hit.index, hits.len() - 1));
        hit_order_is_total(last, hit);
        assert forall|x: HitView| #[trigger] hits.contains(x) <==> rest.contains(x) || x == last by {
            if hits.contains(x) && x != last {
                let i = choose|i: int| 0 <= i < hits.len() && hits[i] == x;
                assert(rest[i] == x);
            }
            if rest.contains(x) {
                let i = choose|i: int| 0 <= i < rest.len() && rest[i] == x;
                assert(hits[i] == x);
            }
            assert(hits[hits.len() - 1] == last);
        }
        if hit_before(last, hit) {
            let res = hits.push(hit);
            assert forall|i: int, j: int| 0 <= i < j < res.len() implies hit_before(#[trigger] res[i], #[trigger] res[j]) by {
                if j == hits.len() && i < hits.len() - 1 {
                    assert(hit_before(hits[i], last));
                    hit_order_is_transitive(hits[i], last, hit);
                }
            }
            assert forall|x: HitView| #[trigger] res.contains(x) <==> hits.contains(x) || x == hit by {
                if hits.contains(x) {
                    let i = choose|i: int| 0 <= i < hits.len() && hits[i] == x;
                    assert(res[i] == x);
                }
                assert(res[hits.len() as int] == hit);
            }
            res
        } else {
            assert forall|i: int| !stands_at(rest, hit.source, hit.index, i) by {
                assert(!stands_at(hits, hit.source, hit.index, i));
            }
            let front = put_in_order(rest, hit);
            let res = front.push(last);
            assert forall|i: int, j: int| 0 <= i < j < res.len() implies hit_before(#[trigger] res[i], #[trigger] res[j]) by {
                if j == front.len() {
                    assert(front.contains(front[i]));
                    if front[i] != hit {
                        let k = choose|k: int| 0 <= k < rest.len() && rest[k] == front[i];
                        assert(hit_before(hits[k], hits[hits.len() - 1]));
                    }
                }
            }
            assert forall|x: HitView| #[trigger] res.contains(x) <==> hits.contains(x) || x == hit by {
                if front.contains(x) {
                    let i = choose|i: int| 0 <= i < front.len() && front[i] == x;
                    assert(res[i] == x);
                }
                assert(res[front.len() as int] == last);
                if res.contains(x) && x != last {
                    let i = choose|i: int| 0 <= i < res.len() && res[i] == x;
                    assert(front[i] == x);
                }
                assert(front.contains(x) <==> rest.contains(x) || x == hit);
            }
            res
        }
    }
}

/// A paragraph that a lane shows is the subject of one of its hits.
pub proof fn shown_is_in_the_lane(lane: Seq<LaneView>, source: Seq<char>, index: u32, n: nat)
    requires
        n <= lane.len(),
        last_showing(lane, source, index, n) is Some || first_showing(lane, source, index, n) is Some,
    ensures
        exists|i: int| 0 <= i < n && is_about(#[trigger] lane[i], source, index),
    decreases n,
{
    if n > 0 && !is_about(lane[n - 1], source, index) {
        shown_is_in_the_lane(lane, source, index, (n - 1) as nat);
    }
}

/// The hits of the paragraphs of the first `n` lane hits, in serving order.
proof fn fused_upto(
    store: StoreMap,
    lexical: Seq<LaneView>,
    semantic: Seq<LaneView>,
    scores: RankScores,
    all: Seq<LaneView>,
    n: nat,
) -> (hits: Seq<HitView>)
    requires
        n <= all.len(),
    ensures
        in_serving_order(hits),
        forall|i: int|
            0 <= i < hits.len() ==> hit_of(store, lexical, semantic, scores, (#[trigger] hits[i]).source, hits[i].index)
                == Some(hits[i]),
        forall|j: int|
            0 <= j < n && hit_of(store, lexical, semantic, scores, (#[trigger] all[j]).source, all[j].index) is Some
                ==> among(hits, all[j].source, all[j].index),
    decreases n,
{
    if n == 0 {
        Seq::empty()
    } else {
        let rest = fused_upto(store, lexical, semantic, scores, all, (n - 1) as nat);
        let key = all[n - 1];
        let hit = hit_of(store, lexical, semantic, scores, key.source, key.index);
        if hit is None || among(rest, key.source, key.index) {
            rest
        } else {
            let hits = put_in_order(rest, hit->0);
            assert forall|i: int| 0 <= i < hits.len() implies hit_of(
                store,
                lexical,
                semantic,
                scores,
                (#[trigger] hits[i]).source,
                hits[i].index,
            ) == Some(hits[i]) by {
                assert(hits.contains(hits[i]));
                if hits[i] != hit->0 {
                    let k = choose|k: int| 0 <= k < rest.len() && rest[k] == hits[i];
                    assert(rest[k] == hits[i]);
                }
            }
            assert forall|j: int|
                0 <= j < n && hit_of(store, lexical, semantic, scores, (#[trigger] all[j]).source, all[j].index) is Some implies among(
                hits,
                all[j].source,
                all[j].index,
            ) by {
                let x = if j == n - 1 {
                    hit->0
                } else {
                    let k = choose|k: int| stands_at(rest, all[j].source, all[j].index, k);
                    assert(rest.contains(rest[k]));
                    rest[k]
                };
                assert(hits.contains(x));
                let k = choose|k: int| 0 <= k < hits.len() && hits[k] == x;
                assert(stands_at(hits, all[j].source, all[j].index, k));
            }
            hits
        }
    }
}

/// Any two lanes have a fusion, so [`fusion`] is one.
pub proof fn lanes_have_a_fusion(store: StoreMap, lexical: Seq<LaneView>, semantic: Seq<LaneView>, scores: RankScores)
    ensures
        is_fusion(store, lexical, semantic, scores, fusion(store, lexical, semantic, scores)),
{
    let all = lexical + semantic;
    let hits = fused_upto(store, lexical, semantic, scores, all, all.len());
    assert forall|source: Seq<char>, index: u32| #[trigger]
        hit_of(store, lexical, semantic, scores, source, index) is Some implies among(hits, source, index) by {
        if last_showing(lexical, source, index, lexical.len()) is Some {
            shown_is_in_the_lane(lexical, source, index, lexical.len());
            let i = choose|i: int| 0 <= i < lexical.len() && is_about(#[trigger] lexical[i], source, index);
            assert(all[i] == lexical[i]);
        } else {
            shown_is_in_the_lane(semantic, source, index, semantic.len());
            let i = choose|i: int| 0 <= i < semantic.len() && is_about(#[trigger] semantic[i], source, index);
            assert(all[lexical.len() + i] == semantic[i]);
        }
    }
    assert(is_fusion(store, lexical, semantic, scores, hits));
}

/// Every hit is of a paragraph that one of the lanes brought.
pub proof fn hits_come_from_the_lanes(
    store: StoreMap,
    lexical: Seq<LaneView>,
    semantic: Seq<LaneView>,
    scores: RankScores,
    i: int,
)
    requires
        0 <= i < fusion(store, lexical, semantic, scores).len(),
    ensures
        ({
            let hit = fusion(store, lexical, semantic, scores)[i];
            ||| exists|j: int| 0 <= j < lexical.len() && is_about(#[trigger] lexical[j], hit.source, hit.index)
            ||| exists|j: int| 0 <= j < semantic.len() && is_about(#[trigger] semantic[j], hit.source, hit.index)
        }),
{
    lanes_have_a_fusion(store, lexical, semantic, scores);
    let hit = fusion(store, lexical, semantic, scores)[i];
    assert(hit_of(store, lexical, semantic, scores, hit.source, hit.index) == Some(hit));
    if last_showing(lexical, hit.source, hit.index, lexical.len()) is Some {
        shown_is_in_the_lane(lexical, hit.source, hit.index, lexical.len());
    } else {
        shown_is_in_the_lane(semantic, hit.source, hit.index, semantic.len());
    }
}

/// What a lane says of a paragraph is one of its own hits: the keyword lane
/// speaks by the last hit that is about the paragraph, the vector lane by the
/// first, each with the place at which it stands.
pub proof fn lanes_speak_by_their_own_hits(lane: Seq<LaneView>, source: Seq<char>, index: u32, n: nat)
    requires
        n <= lane.len() <= usize::MAX,
    ensures
        match last_showing(lane, source, index, n) {
            Some(e) => {
                &&& 1 <= e.0 <= n
                &&& lane[e.0 - 1].source == source && lane[e.0 - 1].index == index
                &&& e.1 == lane[e.0 - 1].score && e.2 == lane[e.0 - 1].hash
                &&& forall|j: int| e.0 <= j < n ==> (#[trigger] lane[j]).source != source || lane[j].index != index
            },
            None => forall|j: int| 0 <= j < n ==> (#[trigger] lane[j]).source != source || lane[j].index != index,
        },
        match first_showing(lane, source, index, n) {
            Some(e) => {
                &&& 1 <= e.0 <= n
                &&& lane[e.0 - 1].source == source && lane[e.0 - 1].index == index
                &&& e.1 == lane[e.0 - 1].score && e.2 == lane[e.0 - 1].hash
                &&& forall|j: int| 0 <= j < e.0 - 1 ==> (#[trigger] lane[j]).source != source || lane[j].index != index
            },
            None => forall|j: int| 0 <= j < n ==> (#[trigger] lane[j]).source != source || lane[j].index != index,
        },
    decreases n,
{
    if n > 0 {
        lanes_speak_by_their_own_hits(lane, source, index, (n - 1) as nat);
    }
}

/// A hit of a hybrid search scores by its own rank: one lane alone by that
/// lane's rank, both together by the keyword rank's sum.
pub proof fn hits_score_by_their_own_ranks(
    store: StoreMap,
    lexical: Seq<LaneView>,
    semantic: Seq<LaneView>,
    scores: RankScores,
    i: int,
)
    requires
        0 <= i < fusion(store, lexical, semantic, scores).len(),
        semantic.len() > 0,
    ensures
        ({
            let hit = fusion(store, lexical, semantic, scores)[i];
            &&& hit.bm25 is Some || hit.vector is Some
            &&& hit.bm25 is Some && hit.vector is Some && 1 <= (hit.bm25->0).0 <= scores.both@.len() ==> hit.score
                == scores.both@[(hit.bm25->0).0 - 1]
            &&& hit.bm25 is Some && hit.vector is None && 1 <= (hit.bm25->0).0 <= scores.single@.len() ==> hit.score
                == scores.single@[(hit.bm25->0).0 - 1]
            &&& hit.bm25 is None && hit.vector is Some && 1 <= (hit.vector->0).0 <= scores.single@.len() ==> hit.score
                == scores.single@[(hit.vector->0).0 - 1]
        }),
{
    lanes_have_a_fusion(store, lexical, semantic, scores);
    let hit = fusion(store, lexical, semantic, scores)[i];
    assert(hit_of(store, lexical, semantic, scores, hit.source, hit.index) == Some(hit));
}

/// A hit names the lane hits it rests on: it is of a paragraph that is there,
/// shows the paragraph's text, and each lane's rank and score are those of a
/// hit of that lane about this paragraph and this text. Without rows of the
/// vector lane it keeps its keyword score.
pub proof fn hits_rest_on_lane_hits(
    store: StoreMap,
    lexical: Seq<LaneView>,
    semantic: Seq<LaneView>,
    scores: RankScores,
    i: int,
)
    requires
        0 <= i < fusion(store, lexical, semantic, scores).len(),
        lexical.len() <= usize::MAX,
        semantic.len() <= usize::MAX,
    ensures
        ({
            let hit = fusion(store, lexical, semantic, scores)[i];
            let paragraphs = store[hit.source].paragraphs@;
            &&& store.contains_key(hit.source)
            &&& hit.index < paragraphs.len()
            &&& hit.text == paragraphs[hit.index as int].text@
            &&& hit.bm25 matches Some(b) ==> {
                &&& 1 <= b.0 <= lexical.len()
                &&& lexical[b.0 - 1] == (LaneView {
                    source: hit.source,
                    index: hit.index,
                    hash: paragraphs[hit.index as int].hash,
                    score: b.1,
                })
            }
            &&& hit.vector matches Some(v) ==> {
                &&& 1 <= v.0 <= semantic.len()
                &&& semantic[v.0 - 1] == (LaneView {
                    source: hit.source,
                    index: hit.index,
                    hash: paragraphs[hit.index as int].hash,
                    score: v.1,
                })
            }
            &&& semantic.len() == 0 ==> hit.vector is None && hit.bm25 is Some && hit.score == (hit.bm25->0).1
        }),
{
    lanes_have_a_fusion(store, lexical, semantic, scores);
    let hit = fusion(store, lexical, semantic, scores)[i];
    assert(hit_of(store, lexical, semantic, scores, hit.source, hit.index) == Some(hit));
    lanes_speak_by_their_own_hits(lexical, hit.source, hit.index, lexical.len());
    lanes_speak_by_their_own_hits(semantic, hit.source, hit.index, semantic.len());
}

/// A paragraph that a lane found as it is now is a hit, and that lane's word
/// is on it: the keyword lane's last, the vector lane's first, whatever the
/// other lane saw.
pub proof fn what_a_lane_found_is_served(
    store: StoreMap,
    lexical: Seq<LaneView>,
    semantic: Seq<LaneView>,
    scores: RankScores,
    j: int,
) -> (at: (int, int))
    requires
        lexical.len() <= usize::MAX,
        semantic.len() <= usize::MAX,
    ensures
        ({
            let hits = fusion(store, lexical, semantic, scores);
            let found = lexical[j];
            0 <= j < lexical.len() && store.contains_key(found.source) && found.index
                < store[found.source].paragraphs@.len() && store[found.source].paragraphs@[found.index as int].hash
                == found.hash && (forall|k: int|
                j < k < lexical.len() ==> (#[trigger] lexical[k]).source != found.source || lexical[k].index
                    != found.index) ==> {
                &&& 0 <= at.0 < hits.len()
                &&& hits[at.0].source == found.source && hits[at.0].index == found.index
                &&& hits[at.0].bm25 == Some(((j + 1) as usize, found.score))
            }
        }),
        ({
            let hits = fusion(store, lexical, semantic, scores);
            let found = semantic[j];
            0 <= j < semantic.len() && store.contains_key(found.source) && found.index
                < store[found.source].paragraphs@.len() && store[found.source].paragraphs@[found.index as int].hash
                == found.hash && (forall|k: int|
                0 <= k < j ==> (#[trigger] semantic[k]).source != found.source || semantic[k].index
                    != found.index) ==> {
                &&& 0 <= at.1 < hits.len()
                &&& hits[at.1].source == found.source && hits[at.1].index == found.index
                &&& hits[at.1].vector == Some(((j + 1) as usize, found.score))
            }
        }),
{
    lanes_have_a_fusion(store, lexical, semantic, scores);
    let hits = fusion(store, lexical, semantic, scores);
    let l = lexical[j];
    let v = semantic[j];
    lanes_speak_by_their_own_hits(lexical, l.source, l.index, lexical.len());
    lanes_speak_by_their_own_hits(semantic, v.source, v.index, semantic.len());
    let a = choose|a: int| stands_at(hits, l.source, l.index, a);
    let b = choose|b: int| stands_at(hits, v.source, v.index, b);
    if among(hits, l.source, l.index) {
        assert(hit_of(store, lexical, semantic, scores, hits[a].source, hits[a].index) == Some(hits[a]));
    } else {
        assert(hit_of(store, lexical, semantic, scores, l.source, l.index) is None);
    }
    if among(hits, v.source, v.index) {
        assert(hit_of(store, lexical, semantic, scores, hits[b].source, hits[b].index) == Some(hits[b]));
    } else {
        assert(hit_of(store, lexical, semantic, scores, v.source, v.index) is None);
    }
    (a, b)
}

/// A ranking goes down in score; of equal scores the earlier source comes
/// first, and of one source the earlier paragraph. No paragraph is in it
/// twice.
pub proof fn rankings_go_down_in_score(
    store: StoreMap,
    lexical: Seq<LaneView>,
    semantic: Seq<LaneView>,
    scores: RankScores,
    i: int,
    j: int,
)
    requires
        0 <= i < j < fusion(store, lexical, semantic, scores).len(),
    ensures
        ({
            let a = fusion(store, lexical, semantic, scores)[i];
            let b = fusion(store, lexical, semantic, scores)[j];
            &&& a.score >= b.score
            &&& a.score == b.score && a.source == b.source ==> a.index < b.index
            &&& a.score == b.score && a.source != b.source ==> names::before(a.source, b.source)
            &&& a.source != b.source || a.index != b.index
        }),
{
    lanes_have_a_fusion(store, lexical, semantic, scores);
    let hits = fusion(store, lexical, semantic, scores);
    assert(hit_before(hits[i], hits[j]));
    names::before_irreflexive(hits[i].source);
    assert(hit_of(store, lexical, semantic, scores, hits[i].source, hits[i].index) == Some(hits[i]));
    assert(hit_of(store, lexical, semantic, scores, hits[j].source, hits[j].index) == Some(hits[j]));
}

/// The better rank is served first: where a worse rank counts for less, of
/// two paragraphs that one and the same lane alone found, the one that this
/// lane ranks better stands before the other, and so takes the last seat.
pub proof fn the_better_rank_is_served_first(
    store: StoreMap,
    lexical: Seq<LaneView>,
    semantic: Seq<LaneView>,
    scores: RankScores,
    i: int,
    j: int,
)
    requires
        semantic.len() > 0,
        forall|a: int, b: int|
            0 <= a < b < scores.single@.len() ==> #[trigger] scores.single@[a] > #[trigger] scores.single@[b],
        0 <= i < fusion(store, lexical, semantic, scores).len(),
        0 <= j < fusion(store, lexical, semantic, scores).len(),
        ({
            let x = fusion(store, lexical, semantic, scores)[i];
            let y = fusion(store, lexical, semantic, scores)[j];
            ||| {
                &&& x.bm25 is None && y.bm25 is None
                &&& x.vector is Some && y.vector is Some
                &&& 1 <= (x.vector->0).0 < (y.vector->0).0 <= scores.single@.len()
            }
            ||| {
                &&& x.vector is None && y.vector is None
                &&& x.bm25 is Some && y.bm25 is Some
                &&& 1 <= (x.bm25->0).0 < (y.bm25->0).0 <= scores.single@.len()
            }
        }),
    ensures
        i < j,
        forall|limit: usize| #![trigger cut(fusion(store, lexical, semantic, scores), limit)]
            j < cut(fusion(store, lexical, semantic, scores), limit).len() ==> i < cut(
                fusion(store, lexical, semantic, scores),
                limit,
            ).len(),
{
    hits_score_by_their_own_ranks(store, lexical, semantic, scores, i);
    hits_score_by_their_own_ranks(store, lexical, semantic, scores, j);
    if j < i {
        rankings_go_down_in_score(store, lexical, semantic, scores, j, i);
    }
}

/// A limit takes the first of a ranking: no more than it says, all where
/// there are no more, and each in its place.
pub proof fn limits_take_the_first<A>(s: Seq<A>, limit: usize, i: int)
    ensures
        cut(s, limit).len() <= limit,
        cut(s, limit).len() <= s.len(),
        cut(s, limit).len() == limit || cut(s, limit).len() == s.len(),
        0 <= i < cut(s, limit).len() ==> cut(s, limit)[i] == s[i],
{
}

} // verus!
