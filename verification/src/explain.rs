//! The whole account of one source, or one of its paragraphs, against one
//! query: the same search with nothing cut off, the target found in it, and
//! what limit would have served it.
use crate::fusion;
use crate::fusion::{fuse_passage_lanes, LaneHit, PassageSearchHit, RankScores};
use crate::passages::{PassageRecord, PassageStore, SourceFilter};
use crate::search;
use crate::search::{
    dedup_terms, deduped_spelled_query_terms, lane_pool, semantic_lane_hits, take_pool, Cue, SearchFault, Swept, VectorFacts,
    VectorLaneStatus,
};
use crate::state::{AppState, IoFault};
use crate::terms;
use crate::terms::{spelled_passage_terms, Term};
use crate::text;
use crate::text::same;
use vstd::prelude::*;

verus! {

/// How often the limit that reaches a target is tried.
pub const REACH_TRIES: usize = 8;

/// What a search is explained over: the store, both lanes swept whole, the
/// floor and the sums.
pub struct Field {
    pub store: fusion::StoreMap,
    pub lexical: Seq<fusion::LaneView>,
    pub rows: Seq<fusion::LaneView>,
    pub floor: u64,
    pub scores: RankScores,
}

impl Field {
    /// What a search with this limit serves: each lane's pool first, then
    /// the floor, then the limit.
    pub open spec fn served(self, limit: usize) -> Seq<fusion::HitView> {
        let pool = search::pool_for(limit);
        fusion::cut(
            fusion::fusion(
                self.store,
                fusion::cut(self.lexical, pool),
                search::cleared(fusion::cut(self.rows, pool), self.floor),
                self.scores,
            ),
            limit,
        )
    }

    /// The whole ranking.
    pub open spec fn full(self) -> Seq<fusion::HitView> {
        fusion::cut(
            fusion::fusion(self.store, self.lexical, search::cleared(self.rows, self.floor), self.scores),
            usize::MAX,
        )
    }

    /// A search with this limit serves the paragraph.
    pub open spec fn reaches(self, source: Seq<char>, index: u32, limit: usize) -> bool {
        fusion::among(self.served(limit), source, index)
    }

    /// The most rows that any limit can need.
    pub open spec fn ceiling(self) -> nat {
        let a = self.lexical.len();
        let b = self.rows.len();
        let c = self.full().len();
        let ab = if a < b { b } else { a };
        if ab < c { c } else { ab }
    }
}

/// The paragraph's first place among the hits.
pub open spec fn placed_at(hits: Seq<fusion::HitView>, source: Seq<char>, index: u32, i: int) -> bool {
    fusion::stands_at(hits, source, index, i) && forall|j: int|
        0 <= j < i ==> !#[trigger] fusion::stands_at(hits, source, index, j)
}

/// The worse of a hit's lane ranks, by which its pool has to be sized.
pub open spec fn worse_rank(hit: fusion::HitView) -> nat {
    match (hit.bm25, hit.vector) {
        (Some(b), Some(v)) => if b.0 < v.0 {
            v.0 as nat
        } else {
            b.0 as nat
        },
        (Some(b), None) => b.0 as nat,
        (None, Some(v)) => v.0 as nat,
        (None, None) => 1,
    }
}

/// The least limit whose pool covers a hit's lane ranks.
pub open spec fn lane_need(hit: fusion::HitView) -> nat {
    (worse_rank(hit) + 3) / 4
}

/// The limit to try after one that did not reach the target: once past the
/// whole ranking, first as wide as the lane ranks need; else twice as wide.
pub open spec fn next_limit(field: Field, need: nat, candidate: nat, widened: bool) -> nat {
    let wider = if !widened && candidate >= field.full().len() {
        if need < candidate + 1 {
            candidate + 1
        } else {
            need
        }
    } else {
        2 * candidate
    };
    if wider < field.ceiling() {
        wider
    } else {
        field.ceiling()
    }
}

/// The first limit among the tries that serves the target.
pub open spec fn reached_from(
    field: Field,
    source: Seq<char>,
    index: u32,
    need: nat,
    candidate: nat,
    widened: bool,
    tries: nat,
) -> Option<nat>
    decreases tries,
{
    if tries == 0 {
        None
    } else if field.reaches(source, index, candidate as usize) {
        Some(candidate)
    } else if candidate >= field.ceiling() {
        None
    } else {
        reached_from(
            field,
            source,
            index,
            need,
            next_limit(field, need, candidate, widened),
            widened || candidate >= field.full().len(),
            (tries - 1) as nat,
        )
    }
}

/// The limit to try first: the target's rank, or as wide as its lane ranks
/// need, but no wider than the whole ranking.
pub open spec fn first_limit(field: Field, at: int) -> nat {
    let need = lane_need(field.full()[at]);
    let wide = if at + 1 < need {
        need
    } else {
        (at + 1) as nat
    };
    if wide < field.full().len() {
        wide
    } else {
        field.full().len()
    }
}

/// A limit that serves the target: the search's own, if it does; else the
/// first that was tried and found to.
pub open spec fn reaching_limit(field: Field, source: Seq<char>, index: u32, limit: usize) -> Option<nat> {
    if field.reaches(source, index, limit) {
        Some(limit as nat)
    } else if exists|at: int| placed_at(field.full(), source, index, at) {
        let at = choose|at: int| placed_at(field.full(), source, index, at);
        reached_from(
            field,
            source,
            index,
            lane_need(field.full()[at]),
            first_limit(field, at),
            false,
            REACH_TRIES as nat,
        )
    } else {
        None
    }
}

/// What the keyword index says of one paragraph: the hash of the text that
/// it saw, and how many of the query's terms it found there.
#[derive(Clone, Copy, PartialEq, Eq, Structural, Debug)]
pub struct LexicalFacts {
    pub hash: u64,
    pub shared: usize,
}

/// How many of the query's terms a paragraph shares.
pub open spec fn shared_at(evidence: Seq<Option<LexicalFacts>>, at: int) -> usize {
    if 0 <= at < evidence.len() {
        match evidence[at] {
            Some(facts) => facts.shared,
            None => 0,
        }
    } else {
        0
    }
}

/// Of the first `n` paragraphs, the first that shares the most terms.
pub open spec fn shares_most(evidence: Seq<Option<LexicalFacts>>, n: nat, best: u32) -> bool {
    if n == 0 {
        best == 0
    } else {
        &&& best < n
        &&& forall|j: int| 0 <= j < n ==> #[trigger] shared_at(evidence, j) <= shared_at(evidence, best as int)
        &&& forall|j: int| 0 <= j < best ==> #[trigger] shared_at(evidence, j) < shared_at(evidence, best as int)
    }
}

/// The hit at `i` is the first of a source.
pub open spec fn first_of_source(hits: Seq<fusion::HitView>, source: Seq<char>, i: int) -> bool {
    &&& 0 <= i < hits.len() && hits[i].source == source
    &&& forall|j: int| 0 <= j < i ==> (#[trigger] hits[j]).source != source
}

/// The paragraph that is explained: the one that was named; else the
/// source's best in the whole ranking; else the one that shares the most
/// terms.
pub open spec fn is_chosen(
    full: Seq<fusion::HitView>,
    source: Seq<char>,
    paragraph: Option<u32>,
    paragraphs: usize,
    evidence: Seq<Option<LexicalFacts>>,
    chosen: u32,
) -> bool {
    match paragraph {
        Some(p) => chosen == p,
        None => if exists|i: int| first_of_source(full, source, i) {
            chosen == full[choose|i: int| first_of_source(full, source, i)].index
        } else {
            shares_most(evidence, (paragraphs as u32) as nat, chosen)
        },
    }
}

/// The terms of a text.
pub open spec fn terms_in(raw: Seq<char>, normalized: Seq<char>) -> Seq<terms::TermView> {
    terms::all_terms(text::glyphs_of(normalized), text::nfkc_of(raw))
}

/// The terms of a paragraph and of those of the first `n` questions that it
/// answers.
pub open spec fn paragraph_stream(record: PassageRecord, chosen: u32, n: nat) -> Seq<terms::TermView>
    decreases n,
{
    if n == 0 {
        let p = record.paragraphs@[chosen as int];
        terms_in(p.text@, p.normalized@)
    } else {
        let rest = paragraph_stream(record, chosen, (n - 1) as nat);
        let q = record.questions@[n - 1];
        if q.paragraph == chosen {
            rest + terms_in(q.text@, q.normalized@)
        } else {
            rest
        }
    }
}

/// The spellings of a paragraph's terms, each key once.
pub open spec fn paragraph_spellings(record: PassageRecord, chosen: u32) -> Seq<Seq<char>> {
    search::deduped(paragraph_stream(record, chosen, record.questions@.len())).map_values(|t: terms::TermView| t.spelling)
}

/// The best cosine among the first `n` rows that are of a paragraph's
/// current text: the sweep descends, so the first is the best.
pub open spec fn cosine_upto(rows: Seq<fusion::LaneView>, source: Seq<char>, index: u32, hash: u64, n: nat) -> Option<u64>
    decreases n,
{
    if n == 0 {
        None
    } else {
        match cosine_upto(rows, source, index, hash, (n - 1) as nat) {
            Some(found) => Some(found),
            None => if fusion::is_about(rows[n - 1], source, index) && rows[n - 1].hash == hash {
                Some(rows[n - 1].score)
            } else {
                None
            },
        }
    }
}

/// What the vector lane did, and the target's cosine where it has one.
pub struct VectorLaneReport {
    pub status: VectorLaneStatus,
    pub cosine: Option<u64>,
}

/// The account of one paragraph.
pub struct PassageSearchExplanation {
    pub paragraph: u32,
    pub paragraphs: usize,
    pub paragraph_named: bool,
    pub query_terms: Vec<Term>,
    /// Whether the keyword index's evidence is of the current text, and so
    /// may be shown.
    pub lexical: bool,
    /// The paragraph's own terms, where it shares none with the query.
    pub paragraph_terms: Option<Vec<String>>,
    pub vector: VectorLaneReport,
    pub fused: bool,
    pub ranked: usize,
    pub rank: Option<usize>,
    pub score: Option<u64>,
    pub bm25_lane: Option<(usize, u64)>,
    pub vector_lane: Option<(usize, u64)>,
    pub limit: usize,
    pub served: bool,
    pub cutoff_score: Option<u64>,
    pub limit_to_reach: Option<usize>,
}

/// What an explanation comes to.
pub enum PassageExplainLookup {
    UnknownSource,
    IndexOutOfRange { paragraphs: usize },
    /// The filter kept the search from ever considering the target.
    FilteredOut,
    NoQueryTerms,
    Explained(Box<PassageSearchExplanation>),
}

/// The lookups that need no sweep.
pub open spec fn is_gated(
    store: fusion::StoreMap,
    source: Seq<char>,
    paragraph: Option<u32>,
    filter: Option<&SourceFilter>,
    terms: nat,
) -> bool {
    ||| !store.contains_key(source)
    ||| paragraph is Some && paragraph->0 >= store[source].paragraphs@.len()
    ||| store[source].paragraphs@.len() == 0
    ||| filter is Some && !(*filter->0).admits(source, store[source])
    ||| terms == 0
}

pub open spec fn gate_verdict(
    store: fusion::StoreMap,
    source: Seq<char>,
    paragraph: Option<u32>,
    filter: Option<&SourceFilter>,
    res: PassageExplainLookup,
) -> bool {
    if !store.contains_key(source) {
        res is UnknownSource
    } else {
        let paragraphs = store[source].paragraphs@.len();
        if paragraphs == 0 || (paragraph is Some && paragraph->0 >= paragraphs) {
            res == (PassageExplainLookup::IndexOutOfRange { paragraphs: paragraphs as usize })
        } else if filter is Some && !(*filter->0).admits(source, store[source]) {
            res is FilteredOut
        } else {
            res is NoQueryTerms
        }
    }
}

/// The lookups that need no sweep: `None` means that the target is validly
/// addressed and was considered.
pub fn explain_gate(
    store: &PassageStore,
    source: &str,
    paragraph: Option<u32>,
    filter: Option<&SourceFilter>,
    terms: usize,
) -> (res: Option<PassageExplainLookup>)
    requires
        store.wf(),
        filter is Some ==> (filter->0).wf(),
    ensures
        match res {
            Some(verdict) => is_gated(store@, source@, paragraph, filter, terms as nat) && gate_verdict(
                store@,
                source@,
                paragraph,
                filter,
                verdict,
            ),
            None => !is_gated(store@, source@, paragraph, filter, terms as nat),
        },
{
    let record = match store.get(source) {
        None => {
            return Some(PassageExplainLookup::UnknownSource);
        },
        Some(record) => record,
    };
    let paragraphs: usize = record.paragraphs.len();
    if let Some(index) = paragraph {
        if index as usize >= paragraphs {
            return Some(PassageExplainLookup::IndexOutOfRange { paragraphs });
        }
    }
    if paragraphs == 0 {
        return Some(PassageExplainLookup::IndexOutOfRange { paragraphs });
    }
    if let Some(f) = filter {
        if !f.matches(source, record) {
            return Some(PassageExplainLookup::FilteredOut);
        }
    }
    if terms == 0 {
        return Some(PassageExplainLookup::NoQueryTerms);
    }
    None
}

/// What a search with this limit serves.
fn serve(store: &PassageStore, lexical: &Vec<LaneHit>, rows: &Vec<LaneHit>, floor: u64, scores: &RankScores, limit: usize) -> (res:
    Vec<PassageSearchHit>)
    requires
        store.wf(),
    ensures
        fusion::hit_views(res@) == (Field {
            store: store@,
            lexical: fusion::lane_views(lexical@),
            rows: fusion::lane_views(rows@),
            floor,
            scores: *scores,
        }).served(limit),
{
    let pool: usize = lane_pool(limit);
    let words = take_pool(lexical, pool);
    let vectors = semantic_lane_hits(&take_pool(rows, pool), floor);
    fuse_passage_lanes(store, &words, &vectors, scores, limit)
}

/// The paragraph's first place among hits.
fn place_of(hits: &Vec<PassageSearchHit>, source: &str, index: u32) -> (res: Option<usize>)
    ensures
        match res {
            Some(at) => placed_at(fusion::hit_views(hits@), source@, index, at as int),
            None => !fusion::among(fusion::hit_views(hits@), source@, index) && forall|at: int|
                !#[trigger] placed_at(fusion::hit_views(hits@), source@, index, at),
        },
{
    let ghost all = fusion::hit_views(hits@);
    let mut i: usize = 0;
    while i < hits.len()
        invariant
            i <= hits.len(),
            all == fusion::hit_views(hits@),
            forall|j: int| 0 <= j < i ==> !#[trigger] fusion::stands_at(all, source@, index, j),
        decreases hits.len() - i,
    {
        assert(all[i as int] == hits@[i as int]@);
        if hits[i].index == index && same(hits[i].source.as_str(), source) {
            assert(fusion::stands_at(all, source@, index, i as int));
            return Some(i);
        }
        assert(!fusion::stands_at(all, source@, index, i as int));
        i = i + 1;
    }
    assert forall|at: int| !#[trigger] placed_at(all, source@, index, at) by {
        if placed_at(all, source@, index, at) {
            assert(fusion::stands_at(all, source@, index, at));
        }
    }
    None
}

proof fn first_place_is_one(hits: Seq<fusion::HitView>, source: Seq<char>, index: u32, a: int, b: int)
    requires
        placed_at(hits, source, index, a),
        placed_at(hits, source, index, b),
    ensures
        a == b,
{
    assert(fusion::stands_at(hits, source, index, a));
    assert(fusion::stands_at(hits, source, index, b));
}

/// The first hit of a source.
fn first_hit_of(hits: &Vec<PassageSearchHit>, source: &str) -> (res: Option<u32>)
    ensures
        match res {
            Some(index) => exists|i: int| #[trigger]
                first_of_source(fusion::hit_views(hits@), source@, i) && index == fusion::hit_views(hits@)[i].index,
            None => forall|i: int| !#[trigger] first_of_source(fusion::hit_views(hits@), source@, i),
        },
{
    let ghost all = fusion::hit_views(hits@);
    let mut i: usize = 0;
    while i < hits.len()
        invariant
            i <= hits.len(),
            all == fusion::hit_views(hits@),
            forall|j: int| 0 <= j < i ==> (#[trigger] all[j]).source != source@,
        decreases hits.len() - i,
    {
        assert(all[i as int] == hits@[i as int]@);
        if same(hits[i].source.as_str(), source) {
            assert(first_of_source(all, source@, i as int));
            return Some(hits[i].index);
        }
        i = i + 1;
    }
    None
}

/// The first of the first `n` paragraphs that shares the most terms.
fn best_shared(evidence: &Vec<Option<LexicalFacts>>, n: u32) -> (best: u32)
    ensures
        shares_most(evidence@, n as nat, best),
{
    let mut best: u32 = 0;
    let mut most: usize = 0;
    let mut at: u32 = 0;
    while at < n
        invariant
            at <= n,
            at > 0 ==> best < at && most == shared_at(evidence@, best as int),
            at == 0 ==> best == 0 && most == 0,
            forall|j: int| 0 <= j < at ==> #[trigger] shared_at(evidence@, j) <= most,
            forall|j: int| 0 <= j < best ==> #[trigger] shared_at(evidence@, j) < most,
        decreases n - at,
    {
        let shared: usize = if (at as usize) < evidence.len() {
            match evidence[at as usize] {
                Some(facts) => facts.shared,
                None => 0,
            }
        } else {
            0
        };
        assert(shared == shared_at(evidence@, at as int));
        if shared > most {
            best = at;
            most = shared;
        }
        at = at + 1;
    }
    best
}

/// The paragraph that is explained.
fn choose_paragraph(
    full: &Vec<PassageSearchHit>,
    source: &str,
    paragraph: Option<u32>,
    paragraphs: usize,
    evidence: &Vec<Option<LexicalFacts>>,
) -> (chosen: u32)
    ensures
        is_chosen(fusion::hit_views(full@), source@, paragraph, paragraphs, evidence@, chosen),
{
    if let Some(p) = paragraph {
        return p;
    }
    match first_hit_of(full, source) {
        Some(index) => {
            proof {
                let all = fusion::hit_views(full@);
                let i = choose|i: int| #[trigger] first_of_source(all, source@, i) && index == all[i].index;
                let k = choose|k: int| first_of_source(all, source@, k);
                assert(first_of_source(all, source@, k));
                assert(all[i].source == source@ && all[k].source == source@);
                assert(i == k);
            }
            index
        },
        None => best_shared(evidence, paragraphs as u32),
    }
}

fn append_terms(list: &mut Vec<Term>, more: Vec<Term>)
    ensures
        terms::term_views(final(list)@) == terms::term_views(old(list)@) + terms::term_views(more@),
{
    let ghost was = terms::term_views(list@);
    let ghost add = terms::term_views(more@);
    let mut i: usize = 0;
    while i < more.len()
        invariant
            i <= more.len(),
            add == terms::term_views(more@),
            terms::term_views(list@) == was + add.take(i as int),
        decreases more.len() - i,
    {
        let term = Term { spelling: more[i].spelling.clone(), key: more[i].key };
        assert(add[i as int] == more@[i as int]@);
        let ghost before = list@;
        list.push(term);
        assert(terms::term_views(list@) =~= terms::term_views(before).push(term@));
        assert(terms::term_views(list@) =~= was + add.take(i + 1));
        i = i + 1;
    }
    assert(add.take(more.len() as int) =~= add);
}

/// The spellings of a paragraph's terms, its questions' with them.
fn spellings_of(record: &PassageRecord, chosen: u32) -> (res: Vec<String>)
    requires
        chosen < record.paragraphs@.len(),
    ensures
        crate::names::views(res@) == paragraph_spellings(*record, chosen),
{
    let paragraph = &record.paragraphs[chosen as usize];
    let mut stream = spelled_passage_terms(paragraph.text.as_str(), paragraph.normalized.as_str());
    let mut i: usize = 0;
    while i < record.questions.len()
        invariant
            i <= record.questions.len(),
            terms::term_views(stream@) == paragraph_stream(*record, chosen, i as nat),
        decreases record.questions.len() - i,
    {
        let question = &record.questions[i];
        if question.paragraph == chosen {
            let more = spelled_passage_terms(question.text.as_str(), question.normalized.as_str());
            append_terms(&mut stream, more);
        }
        i = i + 1;
    }
    let kept = dedup_terms(stream);
    let ghost all = terms::term_views(kept@);
    let mut res: Vec<String> = Vec::new();
    let mut k: usize = 0;
    while k < kept.len()
        invariant
            k <= kept.len(),
            all == terms::term_views(kept@),
            crate::names::views(res@) == all.map_values(|t: terms::TermView| t.spelling).take(k as int),
        decreases kept.len() - k,
    {
        let spelling = kept[k].spelling.clone();
        assert(all[k as int] == kept@[k as int]@);
        let ghost was = res@;
        res.push(spelling);
        assert(crate::names::views(res@) =~= crate::names::views(was).push(spelling@));
        assert(crate::names::views(res@) =~= all.map_values(|t: terms::TermView| t.spelling).take(k + 1));
        k = k + 1;
    }
    assert(crate::names::views(res@) =~= all.map_values(|t: terms::TermView| t.spelling));
    res
}

/// The target's best cosine of its current text.
fn best_cosine(rows: &Vec<LaneHit>, source: &str, index: u32, hash: u64) -> (res: Option<u64>)
    ensures
        res == cosine_upto(fusion::lane_views(rows@), source@, index, hash, rows.len() as nat),
{
    let ghost all = fusion::lane_views(rows@);
    let mut i: usize = 0;
    while i < rows.len()
        invariant
            i <= rows.len(),
            all == fusion::lane_views(rows@),
            cosine_upto(all, source@, index, hash, i as nat) is None,
        decreases rows.len() - i,
    {
        assert(all[i as int] == rows@[i as int]@);
        let row = &rows[i];
        if row.index == index && row.hash == hash && same(row.source.as_str(), source) {
            let score: u64 = row.score;
            proof {
                cosine_is_first(all, source@, index, hash, (i + 1) as nat, rows.len() as nat);
            }
            return Some(score);
        }
        i = i + 1;
    }
    None
}

proof fn cosine_is_first(rows: Seq<fusion::LaneView>, source: Seq<char>, index: u32, hash: u64, n: nat, m: nat)
    requires
        n <= m,
        cosine_upto(rows, source, index, hash, n) is Some,
    ensures
        cosine_upto(rows, source, index, hash, m) == cosine_upto(rows, source, index, hash, n),
    decreases m,
{
    if n < m {
        cosine_is_first(rows, source, index, hash, n, (m - 1) as nat);
    }
}

/// The least limit whose pool covers a hit's lane ranks.
fn need_of(hit: &PassageSearchHit) -> (res: usize)
    ensures
        res == lane_need(hit@),
{
    let worse: usize = match hit.bm25 {
        Some(b) => match hit.vector {
            Some(v) => if b.0 < v.0 {
                v.0
            } else {
                b.0
            },
            None => b.0,
        },
        None => match hit.vector {
            Some(v) => v.0,
            None => 1,
        },
    };
    worse / 4 + (if worse % 4 == 0 {
        0
    } else {
        1
    })
}

/// The limit that serves the target, where some try finds one.
fn find_limit(
    store: &PassageStore,
    lexical: &Vec<LaneHit>,
    rows: &Vec<LaneHit>,
    floor: u64,
    scores: &RankScores,
    full: &Vec<PassageSearchHit>,
    at: usize,
    source: &str,
    index: u32,
) -> (res: Option<usize>)
    requires
        store.wf(),
        at < full.len(),
        fusion::hit_views(full@) == (Field {
            store: store@,
            lexical: fusion::lane_views(lexical@),
            rows: fusion::lane_views(rows@),
            floor,
            scores: *scores,
        }).full(),
    ensures
        ({
            let field = Field {
                store: store@,
                lexical: fusion::lane_views(lexical@),
                rows: fusion::lane_views(rows@),
                floor,
                scores: *scores,
            };
            let found = reached_from(
                field,
                source@,
                index,
                lane_need(field.full()[at as int]),
                first_limit(field, at as int),
                false,
                REACH_TRIES as nat,
            );
            match res {
                Some(limit) => found == Some(limit as nat),
                None => found is None,
            }
        }),
{
    let ghost field = Field {
        store: store@,
        lexical: fusion::lane_views(lexical@),
        rows: fusion::lane_views(rows@),
        floor,
        scores: *scores,
    };
    assert(field.full()[at as int] == full@[at as int]@);
    let need: usize = need_of(&full[at]);
    let ranked: usize = full.len();
    let mut ceiling: usize = lexical.len();
    if ceiling < rows.len() {
        ceiling = rows.len();
    }
    if ceiling < ranked {
        ceiling = ranked;
    }
    assert(ceiling == field.ceiling());
    let mut candidate: usize = if at + 1 < need {
        need
    } else {
        at + 1
    };
    if candidate > ranked {
        candidate = ranked;
    }
    assert(candidate == first_limit(field, at as int));
    let mut widened = false;
    let mut tries: usize = REACH_TRIES;
    let ghost goal = reached_from(field, source@, index, need as nat, candidate as nat, false, tries as nat);
    while tries > 0
        invariant
            store.wf(),
            field == (Field {
                store: store@,
                lexical: fusion::lane_views(lexical@),
                rows: fusion::lane_views(rows@),
                floor,
                scores: *scores,
            }),
            ceiling == field.ceiling(),
            ranked == field.full().len(),
            candidate <= ceiling,
            goal == reached_from(field, source@, index, need as nat, candidate as nat, widened, tries as nat),
            goal == reached_from(
                field,
                source@,
                index,
                lane_need(field.full()[at as int]),
                first_limit(field, at as int),
                false,
                REACH_TRIES as nat,
            ),
        decreases tries,
    {
        let rerun = serve(store, lexical, rows, floor, scores, candidate);
        let place = place_of(&rerun, source, index);
        proof {
            if place is Some {
                assert(fusion::stands_at(field.served(candidate), source@, index, place->0 as int));
            }
            assert(field.reaches(source@, index, candidate) == (place is Some));
        }
        if place.is_some() {
            return Some(candidate);
        }
        if candidate >= ceiling {
            return None;
        }
        let wider: usize = if !widened && candidate >= ranked {
            if need < candidate + 1 {
                candidate + 1
            } else {
                need
            }
        } else if candidate > usize::MAX / 2 {
            usize::MAX
        } else {
            2 * candidate
        };
        widened = widened || candidate >= ranked;
        candidate = if wider < ceiling {
            wider
        } else {
            ceiling
        };
        tries = tries - 1;
    }
    None
}

/// How an explanation goes on.
pub struct ExplainStart {
    pub terms: Vec<Term>,
    /// Whether the query is to be embedded: only where a search would have.
    pub embed: bool,
}

/// What an explanation is of.
pub struct ExplainTarget {
    pub source: String,
    pub paragraph: Option<u32>,
    pub limit: usize,
    pub floor_override: Option<u64>,
}

/// The whole account, held against the field that it is of.
pub open spec fn is_account(
    field: Field,
    record: PassageRecord,
    source: Seq<char>,
    paragraph: Option<u32>,
    limit: usize,
    evidence: Seq<Option<LexicalFacts>>,
    terms: Seq<terms::TermView>,
    x: PassageSearchExplanation,
) -> bool {
    let full = field.full();
    let chosen = x.paragraph;
    let hash = record.paragraphs@[chosen as int].hash;
    let kept = chosen < evidence.len() && evidence[chosen as int] is Some && (evidence[chosen as int]->0).hash == hash;
    let overlap = kept && (evidence[chosen as int]->0).shared > 0;
    &&& chosen < record.paragraphs@.len()
    &&& is_chosen(full, source, paragraph, record.paragraphs@.len() as usize, evidence, chosen)
    &&& x.paragraphs == record.paragraphs@.len()
    &&& x.paragraph_named == (paragraph is Some)
    &&& terms::term_views(x.query_terms@) == terms
    &&& x.lexical == kept
    &&& match x.paragraph_terms {
        Some(spellings) => !overlap && crate::names::views(spellings@) == paragraph_spellings(record, chosen),
        None => overlap,
    }
    &&& x.fused == (search::cleared(field.rows, field.floor).len() > 0)
    &&& x.ranked == full.len()
    &&& match x.rank {
        Some(rank) => {
            &&& rank >= 1 && placed_at(full, source, chosen, rank - 1)
            &&& x.score == Some(full[rank - 1].score)
            &&& x.bm25_lane == full[rank - 1].bm25
            &&& x.vector_lane == full[rank - 1].vector
        },
        None => {
            &&& !fusion::among(full, source, chosen)
            &&& x.score is None && x.bm25_lane is None && x.vector_lane is None
        },
    }
    &&& x.limit == limit
    &&& x.served == field.reaches(source, chosen, limit)
    &&& x.cutoff_score == if field.served(limit).len() == 0 {
        None::<u64>
    } else {
        Some(field.served(limit).last().score)
    }
    &&& match x.limit_to_reach {
        Some(l) => reaching_limit(field, source, chosen, limit) == Some(l as nat),
        None => reaching_limit(field, source, chosen, limit) is None,
    }
}

/// The rows that the vector lane swept: none where it did not run.
pub open spec fn swept_rows(
    options: crate::state::Options,
    cue: Cue,
    vectors: VectorFacts,
    rows: Seq<fusion::LaneView>,
) -> Seq<fusion::LaneView> {
    if search::lane_runs(options, cue, vectors) {
        rows
    } else {
        Seq::empty()
    }
}

/// The account of a paragraph, but for the vector lane.
fn account(
    store: &PassageStore,
    record: &PassageRecord,
    lexical: &Vec<LaneHit>,
    rows: &Vec<LaneHit>,
    floor: u64,
    scores: &RankScores,
    target: &ExplainTarget,
    evidence: &Vec<Option<LexicalFacts>>,
    terms: Vec<Term>,
    status: VectorLaneStatus,
) -> (x: PassageSearchExplanation)
    requires
        store.wf(),
        store@.contains_key(target.source@),
        *record == store@[target.source@],
        record.paragraphs@.len() > 0,
        target.paragraph is Some ==> target.paragraph->0 < record.paragraphs@.len(),
    ensures
        is_account(
            (Field {
                store: store@,
                lexical: fusion::lane_views(lexical@),
                rows: fusion::lane_views(rows@),
                floor,
                scores: *scores,
            }),
            *record,
            target.source@,
            target.paragraph,
            target.limit,
            evidence@,
            terms::term_views(terms@),
            x,
        ),
        x.vector.status == status,
        x.vector.cosine == cosine_upto(
            fusion::lane_views(rows@),
            target.source@,
            x.paragraph,
            record.paragraphs@[x.paragraph as int].hash,
            rows.len() as nat,
        ),
{
    let ghost field = Field {
        store: store@,
        lexical: fusion::lane_views(lexical@),
        rows: fusion::lane_views(rows@),
        floor,
        scores: *scores,
    };
    let source = target.source.as_str();
    let limit: usize = target.limit;
    let semantic = semantic_lane_hits(rows, floor);
    let full = fuse_passage_lanes(store, lexical, &semantic, scores, usize::MAX);
    let ghost all = fusion::hit_views(full@);
    assert(all == field.full());
    let served_hits = serve(store, lexical, rows, floor, scores, limit);
    let paragraphs: usize = record.paragraphs.len();
    let chosen: u32 = choose_paragraph(&full, source, target.paragraph, paragraphs, evidence);
    proof {
        chosen_is_there(field, source@, target.paragraph, paragraphs, evidence@, chosen);
    }
    let hash: u64 = record.paragraphs[chosen as usize].hash;
    let facts = if (chosen as usize) < evidence.len() {
        evidence[chosen as usize]
    } else {
        None
    };
    let (kept, overlap) = match facts {
        Some(f) => (f.hash == hash, f.hash == hash && f.shared > 0),
        None => (false, false),
    };
    let paragraph_terms = if overlap {
        None
    } else {
        Some(spellings_of(record, chosen))
    };
    let cosine = best_cosine(rows, source, chosen, hash);
    let place = place_of(&full, source, chosen);
    let served = place_of(&served_hits, source, chosen).is_some();
    proof {
        if served {
            let k = choose|k: int| placed_at(field.served(limit), source@, chosen, k);
            assert(fusion::stands_at(field.served(limit), source@, chosen, k));
        }
        assert(served == field.reaches(source@, chosen, limit));
    }
    let mut rank: Option<usize> = None;
    let mut score: Option<u64> = None;
    let mut bm25_lane: Option<(usize, u64)> = None;
    let mut vector_lane: Option<(usize, u64)> = None;
    let mut limit_to_reach: Option<usize> = if served {
        Some(limit)
    } else {
        None
    };
    if let Some(at) = place {
        assert(all[at as int] == full@[at as int]@);
        rank = Some(at + 1);
        score = Some(full[at].score);
        bm25_lane = full[at].bm25;
        vector_lane = full[at].vector;
        proof {
            let c = choose|c: int| placed_at(field.full(), source@, chosen, c);
            first_place_is_one(all, source@, chosen, at as int, c);
        }
        if !served {
            limit_to_reach = find_limit(store, lexical, rows, floor, scores, &full, at, source, chosen);
        }
    }
    let ghost out = field.served(limit);
    let cutoff_score: Option<u64> = if served_hits.len() == 0 {
        None
    } else {
        assert(out[served_hits.len() - 1] == served_hits@[served_hits.len() - 1]@);
        Some(served_hits[served_hits.len() - 1].score)
    };
    assert(semantic@.len() == search::cleared(field.rows, floor).len());
    PassageSearchExplanation {
        paragraph: chosen,
        paragraphs,
        paragraph_named: target.paragraph.is_some(),
        query_terms: terms,
        lexical: kept,
        paragraph_terms,
        vector: VectorLaneReport { status, cosine },
        fused: semantic.len() > 0,
        ranked: full.len(),
        rank,
        score,
        bm25_lane,
        vector_lane,
        limit,
        served,
        cutoff_score,
        limit_to_reach,
    }
}

/// The chosen paragraph is one of the source's.
proof fn chosen_is_there(
    field: Field,
    source: Seq<char>,
    paragraph: Option<u32>,
    paragraphs: usize,
    evidence: Seq<Option<LexicalFacts>>,
    chosen: u32,
)
    requires
        is_chosen(field.full(), source, paragraph, paragraphs, evidence, chosen),
        field.store.contains_key(source),
        paragraphs == field.store[source].paragraphs@.len(),
        paragraphs > 0,
        paragraph is Some ==> paragraph->0 < paragraphs,
        fusion::is_fusion(
            field.store,
            field.lexical,
            search::cleared(field.rows, field.floor),
            field.scores,
            fusion::fusion(field.store, field.lexical, search::cleared(field.rows, field.floor), field.scores),
        ),
    ensures
        chosen < paragraphs,
{
    let semantic = search::cleared(field.rows, field.floor);
    let whole = fusion::fusion(field.store, field.lexical, semantic, field.scores);
    if paragraph is None {
        if exists|i: int| first_of_source(field.full(), source, i) {
            let i = choose|i: int| first_of_source(field.full(), source, i);
            assert(field.full()[i] == whole[i]);
            assert(fusion::hit_of(field.store, field.lexical, semantic, field.scores, whole[i].source, whole[i].index)
                == Some(whole[i]));
        } else {
            let n = (paragraphs as u32) as nat;
            assert(n <= paragraphs) by {
                assert((paragraphs as u32) <= paragraphs) by (bit_vector);
            }
        }
    }
}

impl AppState {
    /// Starts an explanation, or `None` where there is no such context.
    pub fn explain_passage_search(&self, name: &str, query: &str, normalized: &str) -> (res: Option<ExplainStart>)
        requires
            self.wf(),
        ensures
            if !self.registry@.contains_key(name@) {
                res is None
            } else {
                res matches Some(start) && terms::term_views(start.terms@) == search::query_terms_of(query@, normalized@)
                    && start.embed == (search::query_terms_of(query@, normalized@).len() > 0 && search::embeds_passages(
                    self.options,
                ))
            },
    {
        if !self.registry.contains(name) {
            return None;
        }
        let terms = deduped_spelled_query_terms(query, normalized);
        let embed = if terms.len() == 0 {
            false
        } else {
            self.passage_query_cue()
        };
        assert(terms@.len() == terms::term_views(terms@).len());
        Some(ExplainStart { terms, embed })
    }

    /// Ends an explanation: both lanes were swept whole, and `evidence` holds
    /// what the keyword index says of each of the source's paragraphs.
    pub fn explain_finished(
        &self,
        name: &str,
        loaded: Result<&PassageStore, IoFault>,
        expired: bool,
        filter: Option<&SourceFilter>,
        target: &ExplainTarget,
        terms: Vec<Term>,
        swept: &Swept,
        evidence: &Vec<Option<LexicalFacts>>,
    ) -> (res: Option<Result<PassageExplainLookup, SearchFault>>)
        requires
            self.wf(),
            loaded is Ok ==> (loaded->Ok_0).wf(),
            filter is Some ==> (filter->0).wf(),
        ensures
            if !self.registry@.contains_key(name@) {
                res is None
            } else {
                match loaded {
                    Err(fault) => res == Some(Err::<PassageExplainLookup, SearchFault>(SearchFault::Io(fault))),
                    Ok(store) => if is_gated(store@, target.source@, target.paragraph, filter, terms@.len()) {
                        res matches Some(Ok(verdict)) && gate_verdict(
                            store@,
                            target.source@,
                            target.paragraph,
                            filter,
                            verdict,
                        )
                    } else if expired {
                        res == Some(Err::<PassageExplainLookup, SearchFault>(SearchFault::DeadlineExceeded))
                    } else {
                        let floor = search::floor_of(self.options, self.registry@[name@].meta, target.floor_override);
                        let rows = swept_rows(
                            self.options,
                            swept.cue,
                            swept.vectors,
                            fusion::lane_views(swept.rows@),
                        );
                        let field = Field {
                            store: store@,
                            lexical: fusion::lane_views(swept.lexical@),
                            rows,
                            floor,
                            scores: swept.scores,
                        };
                        let record = store@[target.source@];
                        &&& res matches Some(Ok(PassageExplainLookup::Explained(x))) && is_account(
                            field,
                            record,
                            target.source@,
                            target.paragraph,
                            target.limit,
                            evidence@,
                            terms::term_views(terms@),
                            *x,
                        ) && search::status_is(self.options, swept.cue, swept.vectors, floor, x.vector.status)
                            && x.vector.cosine == cosine_upto(
                            rows,
                            target.source@,
                            x.paragraph,
                            record.paragraphs@[x.paragraph as int].hash,
                            rows.len(),
                        )
                    },
                }
            },
    {
        let floor: u64 = match self.registry.get(name) {
            None => {
                return None;
            },
            Some(entry) => self.effective_semantic_floor(target.floor_override, &entry.meta),
        };
        let store = match loaded {
            Err(fault) => {
                return Some(Err(SearchFault::Io(fault)));
            },
            Ok(store) => store,
        };
        if let Some(verdict) = explain_gate(store, target.source.as_str(), target.paragraph, filter, terms.len()) {
            return Some(Ok(verdict));
        }
        if expired {
            return Some(Err(SearchFault::DeadlineExceeded));
        }
        let (_, status) = self.vector_lane(&swept.cue, &swept.vectors, &swept.rows, floor);
        let runs = match &status {
            VectorLaneStatus::Ran { floor: _ } => true,
            _ => false,
        };
        let none: Vec<LaneHit> = Vec::new();
        assert(fusion::lane_views(none@) =~= Seq::empty());
        let rows = if runs {
            &swept.rows
        } else {
            &none
        };
        match store.get(target.source.as_str()) {
            None => Some(Ok(PassageExplainLookup::UnknownSource)),
            Some(record) => {
                let x = account(
                    store,
                    record,
                    &swept.lexical,
                    rows,
                    floor,
                    &swept.scores,
                    target,
                    evidence,
                    terms,
                    status,
                );
                Some(Ok(PassageExplainLookup::Explained(Box::new(x))))
            },
        }
    }
}

/// A limit that an explanation gives serves the target: it is verified, not
/// guessed.
pub proof fn reaching_limits_reach(field: Field, source: Seq<char>, index: u32, limit: usize)
    requires
        field.ceiling() <= usize::MAX,
    ensures
        reaching_limit(field, source, index, limit) matches Some(l) ==> l <= usize::MAX && field.reaches(
            source,
            index,
            l as usize,
        ),
        field.reaches(source, index, limit) ==> reaching_limit(field, source, index, limit) == Some(limit as nat),
{
    if !field.reaches(source, index, limit) && exists|at: int| placed_at(field.full(), source, index, at) {
        let at = choose|at: int| placed_at(field.full(), source, index, at);
        reached_is_reached(
            field,
            source,
            index,
            lane_need(field.full()[at]),
            first_limit(field, at),
            false,
            REACH_TRIES as nat,
        );
    }
}

proof fn reached_is_reached(
    field: Field,
    source: Seq<char>,
    index: u32,
    need: nat,
    candidate: nat,
    widened: bool,
    tries: nat,
)
    requires
        candidate <= field.ceiling(),
        field.ceiling() <= usize::MAX,
    ensures
        reached_from(field, source, index, need, candidate, widened, tries) matches Some(l) ==> l <= usize::MAX
            && field.reaches(source, index, l as usize),
    decreases tries,
{
    if tries > 0 && !field.reaches(source, index, candidate as usize) && candidate < field.ceiling() {
        reached_is_reached(
            field,
            source,
            index,
            need,
            next_limit(field, need, candidate, widened),
            widened || candidate >= field.full().len(),
            (tries - 1) as nat,
        );
    }
}

/// An explanation accounts for the very search it is about: what a search
/// serves from lanes swept to their pools is what the explanation of the same
/// call, from lanes swept whole, holds the target against.
pub proof fn explanation_matches_the_search(
    options: crate::state::Options,
    cue: Cue,
    vectors: VectorFacts,
    store: fusion::StoreMap,
    lexical: Seq<fusion::LaneView>,
    rows: Seq<fusion::LaneView>,
    floor: u64,
    scores: RankScores,
    limit: usize,
)
    ensures
        fusion::cut(
            fusion::fusion(
                store,
                fusion::cut(lexical, search::pool_for(limit)),
                search::semantic_lane(options, cue, vectors, floor, fusion::cut(rows, search::pool_for(limit))),
                scores,
            ),
            limit,
        ) == (Field { store, lexical, rows: swept_rows(options, cue, vectors, rows), floor, scores }).served(limit),
{
    if !search::lane_runs(options, cue, vectors) {
        let none = Seq::<fusion::LaneView>::empty();
        assert(fusion::cut(none, search::pool_for(limit)) =~= none);
        assert(search::cleared(none, floor) =~= none);
    }
}

/// What an explanation says of a search is what the search does: the search
/// it is about serves the paragraph exactly where it says so, and ends at the
/// score it gives; and a search with the limit that it names serves the
/// paragraph. The search's lanes are the first rows, as many as its pool
/// holds, of those that the explanation swept whole.
pub proof fn explanations_agree_with_searches(
    options: crate::state::Options,
    cue: Cue,
    vectors: VectorFacts,
    field: Field,
    rows: Seq<fusion::LaneView>,
    record: PassageRecord,
    source: Seq<char>,
    paragraph: Option<u32>,
    limit: usize,
    evidence: Seq<Option<LexicalFacts>>,
    terms: Seq<terms::TermView>,
    x: PassageSearchExplanation,
    searched: usize,
    searched_lexical: Seq<fusion::LaneView>,
    searched_rows: Seq<fusion::LaneView>,
    hits: Seq<fusion::HitView>,
)
    requires
        field.rows == swept_rows(options, cue, vectors, rows),
        field.ceiling() <= usize::MAX,
        is_account(field, record, source, paragraph, limit, evidence, terms, x),
        searched_lexical == fusion::cut(field.lexical, search::pool_for(searched)),
        searched_rows == fusion::cut(rows, search::pool_for(searched)),
        hits == fusion::cut(
            fusion::fusion(
                field.store,
                searched_lexical,
                search::semantic_lane(options, cue, vectors, field.floor, searched_rows),
                field.scores,
            ),
            searched,
        ),
    ensures
        searched == limit ==> x.served == fusion::among(hits, source, x.paragraph),
        searched == limit ==> x.cutoff_score == if hits.len() == 0 {
            None::<u64>
        } else {
            Some(hits.last().score)
        },
        x.limit_to_reach == Some(searched) ==> fusion::among(hits, source, x.paragraph),
{
    explanation_matches_the_search(
        options,
        cue,
        vectors,
        field.store,
        field.lexical,
        rows,
        field.floor,
        field.scores,
        searched,
    );
    reaching_limits_reach(field, source, x.paragraph, limit);
}

/// The paragraph that is explained is the one that was named; where none was,
/// the source's first in the whole ranking; and where it has none there, the
/// first of those that share the most terms with the query.
pub proof fn the_explained_paragraph(
    full: Seq<fusion::HitView>,
    source: Seq<char>,
    paragraph: Option<u32>,
    paragraphs: usize,
    evidence: Seq<Option<LexicalFacts>>,
    chosen: u32,
    i: int,
)
    requires
        is_chosen(full, source, paragraph, paragraphs, evidence, chosen),
    ensures
        paragraph matches Some(p) ==> chosen == p,
        paragraph is None && 0 <= i < full.len() && full[i].source == source && (forall|j: int|
            0 <= j < i ==> (#[trigger] full[j]).source != source) ==> chosen == full[i].index,
        paragraph is None && 0 < paragraphs <= u32::MAX && (forall|j: int|
            0 <= j < full.len() ==> (#[trigger] full[j]).source != source) ==> {
            &&& chosen < paragraphs
            &&& forall|j: u32|
                j < paragraphs && j < evidence.len() && (#[trigger] evidence[j as int]) is Some && (
                evidence[j as int]->0).shared > 0 ==> {
                    &&& chosen < evidence.len() && evidence[chosen as int] is Some
                    &&& (evidence[chosen as int]->0).shared >= (evidence[j as int]->0).shared
                    &&& j < chosen ==> (evidence[chosen as int]->0).shared > (evidence[j as int]->0).shared
                }
        },
{
    if paragraph is None {
        if 0 <= i < full.len() && full[i].source == source && (forall|j: int|
            0 <= j < i ==> (#[trigger] full[j]).source != source) {
            assert(first_of_source(full, source, i));
            let k = choose|k: int| first_of_source(full, source, k);
            assert(first_of_source(full, source, k));
            if k < i {
                assert(full[k].source != source);
            } else if i < k {
                assert(full[i].source != source);
            }
        }
        if 0 < paragraphs <= u32::MAX && (forall|j: int| 0 <= j < full.len() ==> (#[trigger] full[j]).source != source) {
            assert forall|k: int| !first_of_source(full, source, k) by {
                if first_of_source(full, source, k) {
                    assert(full[k].source != source);
                }
            }
            assert((paragraphs as u32) == paragraphs);
            assert forall|j: u32|
                j < paragraphs && j < evidence.len() && (#[trigger] evidence[j as int]) is Some && (
                evidence[j as int]->0).shared > 0 implies {
                &&& chosen < evidence.len() && evidence[chosen as int] is Some
                &&& (evidence[chosen as int]->0).shared >= (evidence[j as int]->0).shared
                &&& j < chosen ==> (evidence[chosen as int]->0).shared > (evidence[j as int]->0).shared
            } by {
                assert(shared_at(evidence, j as int) <= shared_at(evidence, chosen as int));
            }
        }
    }
}

/// A paragraph's cosine is that of the first row that is about it and of its
/// current text; without such a row it has none.
pub proof fn cosines_are_of_the_current_text(
    rows: Seq<fusion::LaneView>,
    source: Seq<char>,
    index: u32,
    hash: u64,
    n: nat,
    i: int,
)
    requires
        n <= rows.len(),
    ensures
        0 <= i < n && rows[i].source == source && rows[i].index == index && rows[i].hash == hash && (forall|j: int|
            0 <= j < i ==> (#[trigger] rows[j]).source != source || rows[j].index != index || rows[j].hash != hash)
            ==> cosine_upto(rows, source, index, hash, n) == Some(rows[i].score),
        (forall|j: int|
            0 <= j < n ==> (#[trigger] rows[j]).source != source || rows[j].index != index || rows[j].hash != hash)
            ==> cosine_upto(rows, source, index, hash, n) is None,
    decreases n,
{
    if n > 0 {
        cosines_are_of_the_current_text(rows, source, index, hash, (n - 1) as nat, i);
    }
}

/// A paragraph that is shown by its own terms is shown by those of its text
/// and of every question that it answers: no more and no fewer, each key
/// once.
pub proof fn paragraphs_are_shown_by_their_terms(record: PassageRecord, chosen: u32, n: nat, q: int)
    requires
        n <= record.questions@.len(),
        chosen < record.paragraphs@.len(),
    ensures
        ({
            let own = terms_in(record.paragraphs@[chosen as int].text@, record.paragraphs@[chosen as int].normalized@);
            let all = paragraph_stream(record, chosen, n);
            &&& all.len() >= own.len()
            &&& all.take(own.len() as int) == own
            &&& (forall|k: int| 0 <= k < n ==> (#[trigger] record.questions@[k]).paragraph != chosen) ==> all == own
            &&& 0 <= q < n && record.questions@[q].paragraph == chosen ==> {
                let more = terms_in(record.questions@[q].text@, record.questions@[q].normalized@);
                exists|o: int| 0 <= o && o + more.len() <= all.len() && #[trigger] all.subrange(o, o + more.len()) == more
            }
        }),
    decreases n,
{
    let own = terms_in(record.paragraphs@[chosen as int].text@, record.paragraphs@[chosen as int].normalized@);
    let all = paragraph_stream(record, chosen, n);
    if n == 0 {
        assert(all.take(own.len() as int) =~= own);
    } else {
        let m = (n - 1) as nat;
        paragraphs_are_shown_by_their_terms(record, chosen, m, q);
        let rest = paragraph_stream(record, chosen, m);
        assert(all.take(own.len() as int) =~= rest.take(own.len() as int));
        if 0 <= q < n && record.questions@[q].paragraph == chosen {
            let more = terms_in(record.questions@[q].text@, record.questions@[q].normalized@);
            if q == m {
                assert(all.subrange(rest.len() as int, (rest.len() + more.len()) as int) =~= more);
            } else {
                let o = choose|o: int|
                    0 <= o && o + more.len() <= rest.len() && #[trigger] rest.subrange(o, o + more.len()) == more;
                assert(all.subrange(o, o + more.len()) =~= rest.subrange(o, o + more.len()));
            }
        }
    }
}

/// An explanation answers without a sweep exactly where there is nothing to
/// sweep for, and says what is missing.
pub proof fn unanswerable_explanations_say_why(
    store: fusion::StoreMap,
    source: Seq<char>,
    paragraph: Option<u32>,
    filter: Option<&SourceFilter>,
    terms: nat,
    res: PassageExplainLookup,
)
    requires
        is_gated(store, source, paragraph, filter, terms),
        gate_verdict(store, source, paragraph, filter, res),
    ensures
        res !is Explained,
        res is UnknownSource <==> !store.contains_key(source),
        res is IndexOutOfRange <==> store.contains_key(source) && (store[source].paragraphs@.len() == 0 || (paragraph is Some
            && paragraph->0 >= store[source].paragraphs@.len())),
        res is FilteredOut ==> filter is Some && !(*filter->0).admits(source, store[source]),
        filter is Some && store.contains_key(source) && !(*filter->0).admits(source, store[source]) ==> res !is NoQueryTerms,
        res is NoQueryTerms ==> terms == 0,
{
}

/// A paragraph that is ranked, and that every limit from its rank on serves,
/// is given a limit that serves it.
pub proof fn ranked_paragraphs_are_given_a_limit(field: Field, source: Seq<char>, index: u32, limit: usize, at: int)
    requires
        placed_at(field.full(), source, index, at),
        forall|l: usize| l > at ==> #[trigger] field.reaches(source, index, l),
        field.full().len() <= usize::MAX,
    ensures
        reaching_limit(field, source, index, limit) is Some,
{
    let k = choose|k: int| placed_at(field.full(), source, index, k);
    assert(placed_at(field.full(), source, index, k));
    first_place_is_one(field.full(), source, index, at, k);
    let first = first_limit(field, at);
    assert(first > at && first <= usize::MAX);
    assert(field.reaches(source, index, first as usize));
}

/// The limit that a hit's lane ranks need is the least whose pool, four times
/// as deep, covers every lane that the hit stands in.
pub proof fn needed_limits_cover_the_lane_ranks(hit: fusion::HitView)
    requires
        hit.bm25 is Some || hit.vector is Some,
        hit.bm25 is Some ==> (hit.bm25->0).0 >= 1,
        hit.vector is Some ==> (hit.vector->0).0 >= 1,
    ensures
        hit.bm25 matches Some(b) ==> 4 * lane_need(hit) >= b.0,
        hit.vector matches Some(v) ==> 4 * lane_need(hit) >= v.0,
        lane_need(hit) >= 1,
        (hit.bm25 is Some && 4 * (lane_need(hit) - 1) < (hit.bm25->0).0) || (hit.vector is Some && 4 * (lane_need(hit) - 1) < (
        hit.vector->0).0),
{
}

/// The first limit that is tried is at least the target's rank, and at least
/// what its lane ranks need where the ranking is that long; a later one is at
/// least twice as wide as the one before, or, once past the whole ranking, as
/// wide as the lane ranks need. None is wider than anything there is.
pub proof fn limits_widen_until_all_is_covered(field: Field, at: int, need: nat, candidate: nat, widened: bool)
    requires
        0 <= at < field.full().len(),
    ensures
        at + 1 <= first_limit(field, at) <= field.full().len(),
        lane_need(field.full()[at]) <= field.full().len() ==> first_limit(field, at) >= lane_need(field.full()[at]),
        first_limit(field, at) == at + 1 || first_limit(field, at) == lane_need(field.full()[at]) || first_limit(field, at)
            == field.full().len(),
        next_limit(field, need, candidate, widened) <= field.ceiling(),
        field.ceiling() >= field.full().len() && field.ceiling() >= field.lexical.len() && field.ceiling() >= field.rows.len(),
        field.ceiling() == field.full().len() || field.ceiling() == field.lexical.len() || field.ceiling()
            == field.rows.len(),
        (widened || candidate < field.full().len()) && 2 * candidate <= field.ceiling() ==> next_limit(
            field,
            need,
            candidate,
            widened,
        ) == 2 * candidate,
        !widened && candidate >= field.full().len() && candidate < need <= field.ceiling() ==> next_limit(
            field,
            need,
            candidate,
            widened,
        ) == need,
        1 <= candidate < field.ceiling() ==> next_limit(field, need, candidate, widened) > candidate,
{
}

/// The limit to be tried at each turn follows from the one before; `turns`
/// are limits that were tried so.
pub open spec fn tried_in_turn(field: Field, need: nat, turns: Seq<nat>, widened: bool) -> bool {
    forall|i: int|
        0 <= i < turns.len() - 1 ==> #[trigger] turns[i + 1] == next_limit(
            field,
            need,
            turns[i],
            widened || exists|j: int| 0 <= j < i && #[trigger] turns[j] >= field.full().len(),
        )
}

proof fn turns_reach(
    field: Field,
    source: Seq<char>,
    index: u32,
    need: nat,
    turns: Seq<nat>,
    widened: bool,
    tries: nat,
)
    requires
        0 < turns.len() <= tries,
        tried_in_turn(field, need, turns, widened),
        forall|i: int|
            0 <= i < turns.len() - 1 ==> !field.reaches(source, index, (#[trigger] turns[i]) as usize) && turns[i]
                < field.ceiling(),
        field.reaches(source, index, turns.last() as usize),
    ensures
        reached_from(field, source, index, need, turns[0], widened, tries) == Some(turns.last()),
    decreases turns.len(),
{
    if turns.len() > 1 {
        let rest = turns.drop_first();
        let wide = widened || turns[0] >= field.full().len();
        assert(turns[0int + 1] == next_limit(field, need, turns[0], widened));
        assert forall|i: int| 0 <= i < rest.len() - 1 implies #[trigger] rest[i + 1] == next_limit(
            field,
            need,
            rest[i],
            wide || exists|j: int| 0 <= j < i && #[trigger] rest[j] >= field.full().len(),
        ) by {
            assert(rest[i + 1] == turns[(i + 1) + 1]);
            assert(rest[i] == turns[i + 1]);
            let a = widened || exists|j: int| 0 <= j < i + 1 && #[trigger] turns[j] >= field.full().len();
            let b = wide || exists|j: int| 0 <= j < i && #[trigger] rest[j] >= field.full().len();
            if a && !widened {
                let j = choose|j: int| 0 <= j < i + 1 && #[trigger] turns[j] >= field.full().len();
                if j > 0 {
                    assert(rest[j - 1] >= field.full().len());
                }
            }
            if b && !wide {
                let j = choose|j: int| 0 <= j < i && #[trigger] rest[j] >= field.full().len();
                assert(turns[j + 1] >= field.full().len());
            }
            if wide && !widened {
                assert(turns[0] >= field.full().len());
            }
            assert(a == b);
        }
        assert forall|i: int| 0 <= i < rest.len() - 1 implies !field.reaches(source, index, (#[trigger] rest[i]) as usize)
            && rest[i] < field.ceiling() by {
            assert(rest[i] == turns[i + 1]);
        }
        assert(rest.last() == turns.last());
        assert(rest[0] == turns[1]);
        assert(!field.reaches(source, index, turns[0] as usize));
        turns_reach(field, source, index, need, rest, wide, (tries - 1) as nat);
    }
}

/// Up to eight limits are tried in turn, and the first that serves the target
/// is the one that is given.
pub proof fn eight_limits_are_tried(
    field: Field,
    source: Seq<char>,
    index: u32,
    limit: usize,
    at: int,
    turns: Seq<nat>,
)
    requires
        !field.reaches(source, index, limit),
        placed_at(field.full(), source, index, at),
        0 < turns.len() <= 8,
        turns[0] == first_limit(field, at),
        tried_in_turn(field, lane_need(field.full()[at]), turns, false),
        forall|i: int|
            0 <= i < turns.len() - 1 ==> !field.reaches(source, index, (#[trigger] turns[i]) as usize) && turns[i]
                < field.ceiling(),
        field.reaches(source, index, turns.last() as usize),
    ensures
        reaching_limit(field, source, index, limit) == Some(turns.last()),
{
    let k = choose|k: int| placed_at(field.full(), source, index, k);
    assert(placed_at(field.full(), source, index, k));
    first_place_is_one(field.full(), source, index, at, k);
    turns_reach(field, source, index, lane_need(field.full()[at]), turns, false, 8);
}

/// An account ranks its paragraph where it stands in the whole ranking, with
/// the score and the lane ranks that it has there; one that does not stand
/// there has none of these. It is served where it stands among the hits that
/// the limit leaves, and then the limit to reach is the limit itself; the
/// cut-off is the score of the last hit served.
pub proof fn accounts_show_the_ranking(
    field: Field,
    record: PassageRecord,
    source: Seq<char>,
    paragraph: Option<u32>,
    limit: usize,
    evidence: Seq<Option<LexicalFacts>>,
    terms: Seq<terms::TermView>,
    x: PassageSearchExplanation,
    i: int,
)
    requires
        is_account(field, record, source, paragraph, limit, evidence, terms, x),
    ensures
        ({
            let full = field.full();
            let served = field.served(limit);
            &&& x.rank matches Some(rank) ==> 1 <= rank <= full.len() && full[rank - 1].source == source && full[rank - 1].index
                == x.paragraph && x.score == Some(full[rank - 1].score) && x.bm25_lane == full[rank - 1].bm25
                && x.vector_lane == full[rank - 1].vector
            &&& x.rank matches Some(rank) ==> (0 <= i < rank - 1 ==> full[i].source != source || full[i].index != x.paragraph)
            &&& x.rank is None && 0 <= i < full.len() ==> full[i].source != source || full[i].index != x.paragraph
            &&& x.rank is None ==> x.score is None && x.bm25_lane is None && x.vector_lane is None
            &&& 0 <= i < served.len() && served[i].source == source && served[i].index == x.paragraph ==> x.served
            &&& x.served ==> exists|k: int|
                0 <= k < served.len() && (#[trigger] served[k]).source == source && served[k].index == x.paragraph
            &&& x.served ==> x.limit_to_reach == Some(limit)
            &&& served.len() <= limit
            &&& served.len() > 0 ==> x.cutoff_score == Some(served[served.len() - 1].score)
            &&& served.len() == 0 ==> x.cutoff_score is None
            &&& x.ranked == full.len() && x.limit == limit && x.paragraphs == record.paragraphs@.len()
            &&& x.paragraph_named <==> paragraph is Some
            &&& x.fused <==> search::cleared(field.rows, field.floor).len() > 0
            &&& x.lexical <==> x.paragraph < evidence.len() && evidence[x.paragraph as int] is Some && (
            evidence[x.paragraph as int]->0).hash == record.paragraphs@[x.paragraph as int].hash
            &&& x.paragraph_terms is None <==> x.lexical && (evidence[x.paragraph as int]->0).shared > 0
        }),
{
    let full = field.full();
    let served = field.served(limit);
    if let Some(rank) = x.rank {
        assert(fusion::stands_at(full, source, x.paragraph, rank - 1));
        if 0 <= i < rank - 1 {
            assert(!fusion::stands_at(full, source, x.paragraph, i));
        }
    } else {
        assert(!fusion::stands_at(full, source, x.paragraph, i));
    }
    if 0 <= i < served.len() && served[i].source == source && served[i].index == x.paragraph {
        assert(fusion::stands_at(served, source, x.paragraph, i));
    }
    if x.served {
        let k = choose|k: int| fusion::stands_at(served, source, x.paragraph, k);
        assert(served[k].source == source);
    }
}

/// A lane that did not run swept no rows; one that did is shown whole.
pub proof fn only_lanes_that_ran_swept(
    options: crate::state::Options,
    cue: Cue,
    vectors: VectorFacts,
    rows: Seq<fusion::LaneView>,
)
    ensures
        search::lane_runs(options, cue, vectors) ==> swept_rows(options, cue, vectors, rows) == rows,
        !search::lane_runs(options, cue, vectors) ==> swept_rows(options, cue, vectors, rows).len() == 0,
{
}

} // verus!
