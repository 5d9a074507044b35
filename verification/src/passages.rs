//! The registered passages: what a source's text, markers and metadata
//! answer, and the admission of what is stored.
//!
//! The store itself stays with the caller, who loads it and hands it over,
//! or hands over why it could not be loaded.
use crate::names;
use crate::names::{NameMap, NameSet};
use crate::picking;
use crate::quotas;
use crate::quotas::storage_quota_message;
use crate::state;
use crate::state::{AppState, ChangeKind, Entry, IoFault, LoadFailure, Metrics, StoreFacts};
use crate::text::same;
use crate::write_path;
use vstd::prelude::*;

verus! {

/// Why a passage store was refused.
pub enum PassagesWriteError {
    /// The store itself failed.
    Io(IoFault),
    /// The context is at its declared storage ceiling or above.
    QuotaExceeded(String),
}

/// Where a paragraph stands in its original: a kind, such as a page, and a
/// value of that kind.
pub struct Locator {
    pub kind: String,
    pub value: String,
}

impl Locator {
    pub fn copy(&self) -> (res: Locator)
        ensures
            res == *self,
    {
        Locator { kind: self.kind.clone(), value: self.value.clone() }
    }
}

/// What is known of a source besides its text.
pub struct SourceMeta {
    pub stored_at: Option<u64>,
    pub date: Option<u64>,
    pub tags: Vec<String>,
}

#[verifier::ext_equal]
pub struct SourceMetaView {
    pub stored_at: Option<u64>,
    pub date: Option<u64>,
    pub tags: Seq<Seq<char>>,
}

impl View for SourceMeta {
    type V = SourceMetaView;

    open spec fn view(&self) -> SourceMetaView {
        SourceMetaView { stored_at: self.stored_at, date: self.date, tags: names::views(self.tags@) }
    }
}

impl SourceMeta {
    pub fn copy(&self) -> (res: SourceMeta)
        ensures
            res@ == self@,
    {
        let mut tags: Vec<String> = Vec::new();
        let mut i: usize = 0;
        while i < self.tags.len()
            invariant
                i <= self.tags.len(),
                names::views(tags@) == names::views(self.tags@).take(i as int),
            decreases self.tags.len() - i,
        {
            let tag = self.tags[i].clone();
            let ghost was = tags@;
            tags.push(tag);
            assert(names::views(tags@) =~= names::views(was).push(tag@));
            assert(names::views(tags@) =~= names::views(self.tags@).take(i + 1));
            i = i + 1;
        }
        assert(names::views(tags@) =~= names::views(self.tags@));
        SourceMeta { stored_at: self.stored_at, date: self.date, tags }
    }

    /// When the source is from: its own date, else when it was stored.
    pub fn effective_time(&self) -> (res: Option<u64>)
        ensures
            res == effective(self@),
    {
        match self.date {
            Some(t) => Some(t),
            None => self.stored_at,
        }
    }
}

pub open spec fn effective(meta: SourceMetaView) -> Option<u64> {
    match meta.date {
        Some(t) => Some(t),
        None => meta.stored_at,
    }
}

/// One paragraph of a source: a hash of its text, the text, and the text as
/// it is indexed.
pub struct Paragraph {
    pub hash: u64,
    pub text: String,
    pub normalized: String,
}

/// A question that a paragraph answers.
pub struct Question {
    pub paragraph: u32,
    pub text: String,
    pub normalized: String,
}

/// One source's registered passage.
pub struct PassageRecord {
    pub text: String,
    pub paragraphs: Vec<Paragraph>,
    /// Headings, each with the paragraph that it starts at.
    pub sections: Vec<(u32, String)>,
    /// Locators, each with its paragraph.
    pub locators: Vec<(u32, Locator)>,
    pub questions: Vec<Question>,
    pub meta: SourceMeta,
}

/// A context's registered passages, by source.
pub type PassageStore = NameMap<PassageRecord>;

/// The heading at `i` is the nearest at paragraph `index` or before it; of
/// two at the same paragraph, the later one.
pub open spec fn heads(sections: Seq<(u32, String)>, index: u32, i: int) -> bool {
    &&& 0 <= i < sections.len() && sections[i].0 <= index
    &&& forall|j: int|
        0 <= j < sections.len() && (#[trigger] sections[j]).0 <= index ==> sections[j].0 < sections[i].0 || (sections[j].0
            == sections[i].0 && j <= i)
}

/// The heading that governs a paragraph.
pub open spec fn section_of(record: PassageRecord, index: u32) -> Option<Seq<char>> {
    if exists|i: int| heads(record.sections@, index, i) {
        Some(record.sections@[choose|i: int| heads(record.sections@, index, i)].1@)
    } else {
        None
    }
}

/// The locator at `i` is the first of its paragraph.
pub open spec fn locates(locators: Seq<(u32, Locator)>, index: u32, i: int) -> bool {
    &&& 0 <= i < locators.len() && locators[i].0 == index
    &&& forall|j: int| 0 <= j < i ==> (#[trigger] locators[j]).0 != index
}

/// The locator of exactly this paragraph.
pub open spec fn locator_of(record: PassageRecord, index: u32) -> Option<Locator> {
    if exists|i: int| locates(record.locators@, index, i) {
        Some(record.locators@[choose|i: int| locates(record.locators@, index, i)].1)
    } else {
        None
    }
}

impl PassageRecord {
    /// The paragraph at `index`.
    pub fn paragraph(&self, index: u32) -> (res: Option<&Paragraph>)
        ensures
            match res {
                Some(p) => index < self.paragraphs.len() && *p == self.paragraphs@[index as int],
                None => index >= self.paragraphs.len(),
            },
    {
        if (index as usize) < self.paragraphs.len() {
            Some(&self.paragraphs[index as usize])
        } else {
            None
        }
    }

    /// The heading that governs a paragraph: the nearest one at or before it.
    pub fn section_for(&self, index: u32) -> (res: Option<String>)
        ensures
            opt_text(res) == section_of(*self, index),
    {
        let mut best: Option<usize> = None;
        let mut i: usize = 0;
        while i < self.sections.len()
            invariant
                i <= self.sections.len(),
                match best {
                    None => forall|j: int| 0 <= j < i ==> (#[trigger] self.sections@[j]).0 > index,
                    Some(b) => {
                        &&& b < i && self.sections@[b as int].0 <= index
                        &&& forall|j: int|
                            0 <= j < i && (#[trigger] self.sections@[j]).0 <= index ==> self.sections@[j].0
                                < self.sections@[b as int].0 || (self.sections@[j].0 == self.sections@[b as int].0 && j <= b)
                    },
                },
            decreases self.sections.len() - i,
        {
            let at: u32 = self.sections[i].0;
            if at <= index {
                match best {
                    None => {
                        best = Some(i);
                    },
                    Some(b) => {
                        if self.sections[b].0 <= at {
                            best = Some(i);
                        }
                    },
                }
            }
            i = i + 1;
        }
        match best {
            None => {
                assert forall|k: int| !heads(self.sections@, index, k) by {
                    if heads(self.sections@, index, k) {
                        assert(self.sections@[k].0 > index);
                    }
                }
                None
            },
            Some(b) => {
                proof {
                    assert(heads(self.sections@, index, b as int));
                    let k = choose|k: int| heads(self.sections@, index, k);
                    assert(heads(self.sections@, index, k));
                    assert(self.sections@[k].0 <= index && self.sections@[b as int].0 <= index);
                    assert(k == b);
                }
                Some(self.sections[b].1.clone())
            },
        }
    }

    /// The locator of exactly this paragraph.
    pub fn locator_for(&self, index: u32) -> (res: Option<Locator>)
        ensures
            res == locator_of(*self, index),
    {
        let mut i: usize = 0;
        while i < self.locators.len()
            invariant
                i <= self.locators.len(),
                forall|j: int| 0 <= j < i ==> (#[trigger] self.locators@[j]).0 != index,
            decreases self.locators.len() - i,
        {
            if self.locators[i].0 == index {
                proof {
                    assert(locates(self.locators@, index, i as int));
                    let k = choose|k: int| locates(self.locators@, index, k);
                    assert(locates(self.locators@, index, k));
                    assert(self.locators@[k].0 == index && self.locators@[i as int].0 == index);
                    assert(k == i);
                }
                return Some(self.locators[i].1.copy());
            }
            i = i + 1;
        }
        assert forall|k: int| !locates(self.locators@, index, k) by {
            if locates(self.locators@, index, k) {
                assert(self.locators@[k].0 != index);
            }
        }
        None
    }
}

pub open spec fn opt_text(s: Option<String>) -> Option<Seq<char>> {
    match s {
        Some(t) => Some(t@),
        None => None,
    }
}

/// Which sources may answer. The window is half-open: from `since` on, and
/// before `until`. `tagged` names the sources that the filter's tags admit;
/// it is `None` where the filter names no tags.
pub struct SourceFilter {
    pub tagged: Option<NameSet>,
    pub since: Option<u64>,
    pub until: Option<u64>,
}

impl SourceFilter {
    pub open spec fn wf(&self) -> bool {
        match self.tagged {
            Some(s) => s.wf(),
            None => true,
        }
    }

    /// The filter has no window, or the source has a time and it lies in
    /// the window.
    pub open spec fn in_window(self, meta: SourceMetaView) -> bool {
        if self.since is None && self.until is None {
            true
        } else {
            match effective(meta) {
                None => false,
                Some(t) => (self.since is Some ==> self.since->0 <= t) && (self.until is Some ==> t < self.until->0),
            }
        }
    }

    /// The filter admits a source.
    pub open spec fn admits(self, source: Seq<char>, record: PassageRecord) -> bool {
        &&& self.tagged is Some ==> (self.tagged->0)@.contains(source)
        &&& self.in_window(record.meta@)
    }

    /// Whether the filter admits a source.
    pub fn matches(&self, source: &str, record: &PassageRecord) -> (res: bool)
        requires
            self.wf(),
        ensures
            res == self.admits(source@, *record),
    {
        if let Some(tagged) = &self.tagged {
            if !tagged.contains(source) {
                return false;
            }
        }
        if self.since.is_none() && self.until.is_none() {
            return true;
        }
        match record.meta.effective_time() {
            None => false,
            Some(t) => {
                if let Some(since) = self.since {
                    if t < since {
                        return false;
                    }
                }
                if let Some(until) = self.until {
                    if t >= until {
                        return false;
                    }
                }
                true
            },
        }
    }
}

/// The sources of a store that a filter admits.
pub open spec fn eligible_in(store: Map<Seq<char>, PassageRecord>, filter: SourceFilter) -> Set<Seq<char>> {
    Set::new(|s: Seq<char>| store.contains_key(s) && filter.admits(s, store[s]))
}

/// The sources of a store that a filter admits.
pub fn eligible_sources(store: &PassageStore, filter: &SourceFilter) -> (res: NameSet)
    requires
        store.wf(),
        filter.wf(),
    ensures
        res.wf(),
        res@ == eligible_in(store@, *filter),
{
    let mut res = NameSet::new();
    let ghost order = store.order();
    let n: usize = store.len();
    let mut i: usize = 0;
    proof {
        store.order_is_domain();
    }
    while i < n
        invariant
            store.wf(),
            filter.wf(),
            order == store.order(),
            n == order.len(),
            i <= n,
            res.wf(),
            res@ == Set::new(|s: Seq<char>| order.take(i as int).contains(s) && filter.admits(s, store@[s])),
        decreases n - i,
    {
        let source = store.key_at(i);
        let record = store.value_at(i);
        let ghost was = res@;
        if filter.matches(source.as_str(), record) {
            res.insert(source.clone());
        }
        proof {
            let after = Set::new(|s: Seq<char>| order.take(i + 1).contains(s) && filter.admits(s, store@[s]));
            assert(order.take(i + 1) =~= order.take(i as int).push(order[i as int]));
            assert forall|s: Seq<char>| order.take(i + 1).contains(s) == (order.take(i as int).contains(s) || s
                == source@) by {
                let now = order.take(i + 1);
                if s == source@ {
                    assert(now[i as int] == s);
                }
                if order.take(i as int).contains(s) {
                    let k = choose|k: int| 0 <= k < i && order.take(i as int)[k] == s;
                    assert(now[k] == s);
                }
                if now.contains(s) {
                    let k = choose|k: int| 0 <= k < i + 1 && now[k] == s;
                    if k < i {
                        assert(order.take(i as int)[k] == s);
                    }
                }
            }
            assert(res@ =~= after);
        }
        i = i + 1;
    }
    proof {
        assert(order.take(n as int) =~= order);
        store.order_is_domain();
        assert(res@ =~= eligible_in(store@, *filter));
    }
    res
}

/// A batch of passages that was admitted.
pub struct StoreTicket {
    pub name: String,
    pub serial: u64,
}

/// What a store that was written is now: its resident facts and its
/// watermark.
pub struct StoreOutcome {
    pub facts: StoreFacts,
    pub watermark: u64,
}

/// One change for each source, in order.
pub open spec fn stored_changes(sources: Seq<Seq<char>>, changes: Seq<ChangeKind>) -> bool {
    &&& changes.len() == sources.len()
    &&& forall|i: int|
        0 <= i < changes.len() ==> (#[trigger] changes[i] matches ChangeKind::SourceStored { source } && source@ == sources[i])
}

/// The entry after a batch of passages was written. Batches may finish out
/// of order, so the revision only ever grows.
pub open spec fn after_store(e: Entry, outcome: StoreOutcome) -> Entry {
    Entry {
        passages: Some(outcome.facts),
        passages_embed_dirty: true,
        passage_revision: if e.passage_revision < outcome.watermark {
            outcome.watermark
        } else {
            e.passage_revision
        },
        ..e
    }
}

/// What a citation resolves to.
pub enum CitationLookup {
    UnknownSource,
    IndexOutOfRange,
    Found { text: String, section: Option<String>, locator: Option<Locator> },
}

/// What a citation of a loaded store resolves to.
pub open spec fn citation_is(store: Map<Seq<char>, PassageRecord>, source: Seq<char>, index: u32, res: CitationLookup) -> bool {
    if !store.contains_key(source) {
        res is UnknownSource
    } else {
        let record = store[source];
        if index >= record.paragraphs.len() {
            res is IndexOutOfRange
        } else {
            match res {
                CitationLookup::Found { text, section, locator } => {
                    &&& text@ == record.paragraphs@[index as int].text@
                    &&& opt_text(section) == section_of(record, index)
                    &&& locator == locator_of(record, index)
                },
                _ => false,
            }
        }
    }
}

/// The markers that govern a paragraph.
pub struct Markers {
    pub section: Option<String>,
    pub locator: Option<Locator>,
}

/// The paragraph has a marker of either kind.
pub open spec fn is_marked(store: Map<Seq<char>, PassageRecord>, source: Seq<char>, index: u32) -> bool {
    store.contains_key(source) && (section_of(store[source], index) is Some || locator_of(store[source], index) is Some)
}

pub open spec fn markers_are(store: Map<Seq<char>, PassageRecord>, source: Seq<char>, index: u32, m: Markers) -> bool {
    opt_text(m.section) == section_of(store[source], index) && m.locator == locator_of(store[source], index)
}

/// The key at `i` asks for this paragraph.
pub open spec fn asks(keys: Seq<(String, u32)>, source: Seq<char>, index: u32, i: int) -> bool {
    0 <= i < keys.len() && keys[i].0@ == source && keys[i].1 == index
}

/// The paragraph is among the keys.
pub open spec fn asked(keys: Seq<(String, u32)>, source: Seq<char>, index: u32) -> bool {
    exists|i: int| asks(keys, source, index, i)
}

/// The row at `i` resolves this paragraph.
pub open spec fn resolves(rows: Seq<((String, u32), Markers)>, source: Seq<char>, index: u32, i: int) -> bool {
    0 <= i < rows.len() && (rows[i].0).0@ == source && (rows[i].0).1 == index
}

pub open spec fn resolved(rows: Seq<((String, u32), Markers)>, source: Seq<char>, index: u32) -> bool {
    exists|i: int| resolves(rows, source, index, i)
}

/// `rows` holds exactly the keys that carry a marker, each once, with its
/// markers.
pub open spec fn markers_resolved(
    store: Map<Seq<char>, PassageRecord>,
    keys: Seq<(String, u32)>,
    rows: Seq<((String, u32), Markers)>,
) -> bool {
    &&& forall|i: int| 0 <= i < rows.len() ==> {
        let row = #[trigger] rows[i];
        asked(keys, row.0.0@, row.0.1) && is_marked(store, row.0.0@, row.0.1) && markers_are(
            store,
            row.0.0@,
            row.0.1,
            row.1,
        )
    }
    &&& forall|source: Seq<char>, index: u32|
        #[trigger] asked(keys, source, index) && is_marked(store, source, index) ==> resolved(rows, source, index)
    &&& forall|i: int, j: int|
        0 <= i < j < rows.len() ==> ((#[trigger] rows[i]).0.0@ != (#[trigger] rows[j]).0.0@ || rows[i].0.1 != rows[j].0.1)
}

/// The texts of the sources among the first `n` that the store holds.
pub open spec fn texts_upto(store: Map<Seq<char>, PassageRecord>, sources: Seq<Seq<char>>, n: nat) -> Map<
    Seq<char>,
    Seq<char>,
>
    decreases n,
{
    if n == 0 {
        Map::empty()
    } else {
        let rest = texts_upto(store, sources, (n - 1) as nat);
        if store.contains_key(sources[n - 1]) {
            rest.insert(sources[n - 1], store[sources[n - 1]].text@)
        } else {
            rest
        }
    }
}

/// The sources among the first `n` that the store does not hold, in order.
pub open spec fn missing_upto(store: Map<Seq<char>, PassageRecord>, sources: Seq<Seq<char>>, n: nat) -> Seq<Seq<char>>
    decreases n,
{
    if n == 0 {
        Seq::empty()
    } else {
        let rest = missing_upto(store, sources, (n - 1) as nat);
        if store.contains_key(sources[n - 1]) {
            rest
        } else {
            rest.push(sources[n - 1])
        }
    }
}

pub open spec fn text_map(m: Map<Seq<char>, String>) -> Map<Seq<char>, Seq<char>> {
    m.map_values(|s: String| s@)
}

/// The effective times of the sources that have one.
pub open spec fn times_of(store: Map<Seq<char>, PassageRecord>) -> Map<Seq<char>, u64> {
    Map::new(
        |s: Seq<char>| store.contains_key(s) && effective(store[s].meta@) is Some,
        |s: Seq<char>| effective(store[s].meta@)->0,
    )
}

/// A passage store that was loaded from its files.
#[derive(Clone, Copy, PartialEq, Eq, Structural, Debug)]
pub struct LoadedPassages {
    pub facts: StoreFacts,
    /// The revision that the store's log reached.
    pub watermark: u64,
}

/// The last load of the passages failed less than `retry` seconds ago.
pub open spec fn passages_quarantined(e: Entry, now: u64, retry: u64) -> bool {
    state::still_fresh(e.passages_load_failure, now, retry)
}

/// What a use of the passages is refused with: where they are not resident,
/// from memory while they are quarantined, and else where the load failed.
pub open spec fn passages_refusal(e: Entry, loaded: Result<LoadedPassages, IoFault>, now: u64, retry: u64) -> Option<
    (bool, Seq<char>),
> {
    if e.passages is Some {
        None
    } else if passages_quarantined(e, now, retry) {
        Some((false, state::quarantine_text(e.passages_load_failure->0)))
    } else {
        match loaded {
            Ok(_) => None,
            Err(fault) => Some((fault.not_found, fault.message@)),
        }
    }
}

/// The entry once its passages were to be used. A store that was loaded knows
/// the revision it reached.
pub open spec fn after_passages_load(e: Entry, loaded: Result<LoadedPassages, IoFault>, now: u64, retry: u64) -> Entry {
    if e.passages is Some || passages_quarantined(e, now, retry) {
        e
    } else {
        match loaded {
            Ok(store) => Entry {
                passages: Some(store.facts),
                passage_revision: if store.watermark > e.passage_revision {
                    store.watermark
                } else {
                    e.passage_revision
                },
                passages_load_failure: None,
                ..e
            },
            Err(fault) => Entry {
                passages_load_failure: Some(LoadFailure { message: fault.message, at: now }),
                ..e
            },
        }
    }
}

/// Passages whose load failed are refused from memory, whatever another load
/// would give, until `retry` seconds have passed. From then on a good load is
/// taken in and the failure is forgotten.
pub proof fn passages_quarantine_holds_and_heals(
    e: Entry,
    fault: IoFault,
    at: u64,
    again: Result<LoadedPassages, IoFault>,
    now: u64,
    retry: u64,
)
    requires
        e.passages is None,
        !passages_quarantined(e, at, retry),
        at <= now,
    ensures
        ({
            let failed = after_passages_load(e, Err(fault), at, retry);
            &&& passages_refusal(e, Err(fault), at, retry) == Some((fault.not_found, fault.message@))
            &&& now - at < retry ==> passages_refusal(failed, again, now, retry) == Some(
                (false, "quarantined after a failed load: "@ + fault.message@),
            )
            &&& now - at < retry ==> after_passages_load(failed, again, now, retry) == failed
            &&& now - at >= retry && again is Ok ==> passages_refusal(failed, again, now, retry) is None
            &&& now - at >= retry && again is Ok ==> after_passages_load(failed, again, now, retry).passages == Some(
                again->Ok_0.facts,
            )
            &&& now - at >= retry && again is Ok ==> after_passages_load(
                failed,
                again,
                now,
                retry,
            ).passages_load_failure is None
        }),
{
}

/// What [`AppState::store_passages`] answers and leaves.
pub open spec fn admission_is(
    was: AppState,
    now: AppState,
    name: Seq<char>,
    res: Option<Result<StoreTicket, PassagesWriteError>>,
) -> bool {
    &&& now == (AppState { metrics: now.metrics, ..was })
    &&& if !was.registry@.contains_key(name) {
        res is None && now.metrics == was.metrics
    } else {
        match write_path::quota_excess(was, name, was.registry@[name]) {
            Some((used, ceiling)) => {
                &&& res matches Some(Err(PassagesWriteError::QuotaExceeded(message))) && message@
                    == quotas::quota_message_of(name, used, ceiling)
                &&& now.metrics == (Metrics {
                    storage_quota_refusals: was.metrics.storage_quota_refusals.wrapping_add(1),
                    ..was.metrics
                })
            },
            None => {
                &&& res matches Some(Ok(ticket)) && ticket.name@ == name && ticket.serial == was.registry@[name].serial
                &&& now.metrics == was.metrics
            },
        }
    }
}

/// What a store holds once a batch was written: the batch's records, and of
/// the other sources what it held.
pub open spec fn merged(store: Map<Seq<char>, PassageRecord>, batch: Map<Seq<char>, PassageRecord>) -> Map<
    Seq<char>,
    PassageRecord,
> {
    store.union_prefer_right(batch)
}

/// Merges a batch that was written into a store: each source of the batch has
/// the batch's record from here on.
pub fn merge_passages(store: &mut PassageStore, batch: PassageStore)
    requires
        old(store).wf(),
        batch.wf(),
    ensures
        final(store).wf(),
        final(store)@ == merged(old(store)@, batch@),
{
    let ghost goal = merged(store@, batch@);
    let mut left = batch;
    proof {
        left.order_is_domain();
    }
    while left.len() > 0
        invariant
            store.wf(),
            left.wf(),
            merged(store@, left@) == goal,
            left@.dom().finite(),
        decreases left@.dom().len(),
    {
        let name = left.key_at(0).clone();
        let ghost had = left@;
        let ghost held = store@;
        proof {
            left.order_is_domain();
            assert(left.order()[0] == name@);
            assert(had.contains_key(name@));
        }
        if let Some(record) = left.remove(name.as_str()) {
            store.insert(name, record);
        }
        proof {
            assert(merged(store@, left@) =~= merged(held, had));
            left.order_is_domain();
            assert(left@.dom() =~= had.dom().remove(name@));
        }
    }
    proof {
        left.order_is_domain();
        assert(left@.dom() =~= Set::empty());
        assert(merged(store@, left@) =~= store@);
    }
}

impl AppState {
    /// Whether a context's passages have to be loaded before they can be
    /// used, and may be: a failed load is not tried again while it is
    /// quarantined.
    pub fn passages_need_load(&self, name: &str, now: u64) -> (res: bool)
        requires
            self.wf(),
        ensures
            res == (self.registry@.contains_key(name@) && self.registry@[name@].passages is None && !passages_quarantined(
                self.registry@[name@],
                now,
                self.options.load_retry,
            )),
    {
        match self.registry.get(name) {
            Some(entry) => entry.passages.is_none() && state::quarantine_notice(
                &entry.passages_load_failure,
                now,
                self.options.load_retry,
            ).is_none(),
            None => false,
        }
    }

    /// Has a context's passages resident, as [`AppState::ensure_hot`] has its
    /// graph: what was loaded is taken in where they are not. A load that
    /// failed is remembered and reported, and while it is younger than the
    /// retry window the passages are refused from memory. `None` means that
    /// there is no such context.
    pub fn entry_passages(&mut self, name: &str, loaded: Result<LoadedPassages, IoFault>, now: u64) -> (res: Option<
        Result<(), IoFault>,
    >)
        requires
            old(self).wf(),
        ensures
            final(self).wf(),
            old(self).nonces_kept(*final(self)),
            *final(self) == (AppState { registry: final(self).registry, ..*old(self) }),
            ({
                let e = old(self).registry@[name@];
                let retry = old(self).options.load_retry;
                if !old(self).registry@.contains_key(name@) {
                    res is None && final(self).registry@ == old(self).registry@
                } else {
                    &&& match passages_refusal(e, loaded, now, retry) {
                        Some((not_found, text)) => res matches Some(Err(fault)) && fault.not_found == not_found
                            && fault.message@ == text,
                        None => res matches Some(Ok(_)),
                    }
                    &&& final(self).registry@ == old(self).registry@.insert(
                        name@,
                        after_passages_load(e, loaded, now, retry),
                    )
                }
            }),
    {
        let retry: u64 = self.options.load_retry;
        match self.registry.get_mut(name) {
            None => None,
            Some(entry) => {
                if entry.passages.is_some() {
                    return Some(Ok(()));
                }
                if let Some(message) = state::quarantine_notice(&entry.passages_load_failure, now, retry) {
                    return Some(Err(IoFault { not_found: false, message }));
                }
                match loaded {
                    Ok(store) => {
                        entry.passages = Some(store.facts);
                        if store.watermark > entry.passage_revision {
                            entry.passage_revision = store.watermark;
                        }
                        entry.passages_load_failure = None;
                        Some(Ok(()))
                    },
                    Err(fault) => {
                        entry.passages_load_failure = Some(LoadFailure { message: fault.message.clone(), at: now });
                        Some(Err(fault))
                    },
                }
            },
        }
    }

    /// Admits a batch of passages, which only ever grow a
    /// context. `None` means that there is no such context. A batch that
    /// passes is written by the caller and goes on to
    /// [`AppState::passages_stored`]; no other batch of the same context
    /// may pass in between. What the store holds then is [`merge_passages`]
    /// of what it held.
    pub fn store_passages(&mut self, name: &str) -> (res: Option<Result<StoreTicket, PassagesWriteError>>)
        requires
            old(self).wf(),
        ensures
            final(self).wf(),
            old(self).nonces_kept(*final(self)),
            admission_is(*old(self), *final(self), name@, res),
    {
        let serial: u64 = match self.registry.get(name) {
            None => {
                return None;
            },
            Some(entry) => entry.serial,
        };
        if let Some((used, ceiling)) = self.storage_quota_refusal(name) {
            self.metrics.storage_quota_refusals = self.metrics.storage_quota_refusals.wrapping_add(1);
            return Some(Err(PassagesWriteError::QuotaExceeded(storage_quota_message(name, used, ceiling))));
        }
        Some(Ok(StoreTicket { name: name.to_owned(), serial }))
    }

    /// Takes the outcome of a batch in. Where it was written, its sources
    /// are what the keyword index folds in, and what comes back is what the
    /// change feed announces.
    pub fn passages_stored(
        &mut self,
        ticket: &StoreTicket,
        sources: &Vec<String>,
        stored: Result<StoreOutcome, IoFault>,
    ) -> (res: Result<Vec<ChangeKind>, PassagesWriteError>)
        requires
            old(self).wf(),
        ensures
            final(self).wf(),
            old(self).nonces_kept(*final(self)),
            *final(self) == (AppState { registry: final(self).registry, ..*old(self) }),
            match stored {
                Ok(outcome) => {
                    let live = old(self).live(ticket.name@, ticket.serial);
                    &&& res matches Ok(changes) && stored_changes(
                        if live {
                            names::views(sources@)
                        } else {
                            Seq::empty()
                        },
                        changes@,
                    )
                    &&& final(self).registry@ == if live {
                        old(self).registry@.insert(
                            ticket.name@,
                            after_store(old(self).registry@[ticket.name@], outcome),
                        )
                    } else {
                        old(self).registry@
                    }
                },
                Err(fault) => {
                    &&& res == Err::<Vec<ChangeKind>, PassagesWriteError>(PassagesWriteError::Io(fault))
                    &&& final(self).registry@ == old(self).registry@
                },
            },
    {
        match stored {
            Err(fault) => Err(PassagesWriteError::Io(fault)),
            Ok(outcome) => {
                let mut live = false;
                if let Some(entry) = self.registry.get_mut(ticket.name.as_str()) {
                    if entry.serial == ticket.serial {
                        live = true;
                        entry.passages = Some(outcome.facts);
                        entry.passages_embed_dirty = true;
                        if entry.passage_revision < outcome.watermark {
                            entry.passage_revision = outcome.watermark;
                        }
                    } else {
                        assert(old(self).registry@.insert(ticket.name@, *entry) =~= old(self).registry@);
                    }
                }
                let mut changes: Vec<ChangeKind> = Vec::new();
                let mut i: usize = 0;
                while live && i < sources.len()
                    invariant
                        i <= sources.len(),
                        changes.len() == i,
                        !live ==> i == 0,
                        forall|j: int|
                            0 <= j < i ==> (#[trigger] changes@[j] matches ChangeKind::SourceStored { source } && source@
                                == sources@[j]@),
                    decreases sources.len() - i,
                {
                    changes.push(ChangeKind::SourceStored { source: sources[i].clone() });
                    i = i + 1;
                }
                Ok(changes)
            },
        }
    }

    /// Every source that a filter admits, or `None` where there is no such
    /// context. A source without a passage has no metadata and is never
    /// admitted.
    pub fn window_source_names(&self, name: &str, loaded: Result<&PassageStore, IoFault>, filter: &SourceFilter) -> (res:
        Option<Result<NameSet, IoFault>>)
        requires
            self.wf(),
            loaded is Ok ==> (loaded->Ok_0).wf(),
            filter.wf(),
        ensures
            if !self.registry@.contains_key(name@) {
                res is None
            } else {
                match loaded {
                    Err(fault) => res == Some(Err::<NameSet, IoFault>(fault)),
                    Ok(store) => res matches Some(Ok(found)) && found.wf() && found@ == eligible_in(store@, *filter),
                }
            },
    {
        if !self.registry.contains(name) {
            return None;
        }
        match loaded {
            Err(fault) => Some(Err(fault)),
            Ok(store) => Some(Ok(eligible_sources(store, filter))),
        }
    }

    /// Every source's effective time. A source with neither a date nor a
    /// time of storing is absent.
    pub fn source_effective_times(&self, name: &str, loaded: Result<&PassageStore, IoFault>) -> (res: Option<
        Result<NameMap<u64>, IoFault>,
    >)
        requires
            self.wf(),
            loaded is Ok ==> (loaded->Ok_0).wf(),
        ensures
            if !self.registry@.contains_key(name@) {
                res is None
            } else {
                match loaded {
                    Err(fault) => res == Some(Err::<NameMap<u64>, IoFault>(fault)),
                    Ok(store) => res matches Some(Ok(times)) && times.wf() && times@ == times_of(store@),
                }
            },
    {
        if !self.registry.contains(name) {
            return None;
        }
        let store = match loaded {
            Err(fault) => {
                return Some(Err(fault));
            },
            Ok(store) => store,
        };
        let mut times: NameMap<u64> = NameMap::new();
        let ghost order = store.order();
        let n: usize = store.len();
        let mut i: usize = 0;
        proof {
            store.order_is_domain();
            assert(order.take(0) =~= Seq::empty());
        }
        assert(times@ =~= times_of(store@).restrict(order.take(0).to_set()));
        while i < n
            invariant
                store.wf(),
                order == store.order(),
                n == order.len(),
                i <= n,
                times.wf(),
                times@ == times_of(store@).restrict(order.take(i as int).to_set()),
            decreases n - i,
        {
            let source = store.key_at(i);
            let record = store.value_at(i);
            if let Some(t) = record.meta.effective_time() {
                times.insert(source.clone(), t);
            }
            proof {
                assert(order.take(i + 1) =~= order.take(i as int).push(order[i as int]));
                assert forall|s: Seq<char>| #[trigger] order.take(i + 1).to_set().contains(s) == (order.take(
                    i as int,
                ).to_set().contains(s) || s == source@) by {
                    let now = order.take(i + 1);
                    let was = order.take(i as int);
                    if s == source@ {
                        assert(now[i as int] == s);
                    }
                    if was.contains(s) {
                        let k = choose|k: int| 0 <= k < i && was[k] == s;
                        assert(now[k] == s);
                    }
                    if now.contains(s) {
                        let k = choose|k: int| 0 <= k < i + 1 && now[k] == s;
                        if k < i {
                            assert(was[k] == s);
                        }
                    }
                }
                assert(times@ =~= times_of(store@).restrict(order.take(i + 1).to_set()));
            }
            i = i + 1;
        }
        proof {
            assert(order.take(n as int) =~= order);
            store.order_is_domain();
            assert(times@ =~= times_of(store@));
        }
        Some(Ok(times))
    }

    /// The texts of the sources that have one, and the sources that have
    /// none, in the order asked.
    pub fn lookup_passages(&self, name: &str, loaded: Result<&PassageStore, IoFault>, sources: &Vec<String>) -> (res:
        Option<Result<(NameMap<String>, Vec<String>), IoFault>>)
        requires
            self.wf(),
            loaded is Ok ==> (loaded->Ok_0).wf(),
        ensures
            if !self.registry@.contains_key(name@) {
                res is None
            } else {
                match loaded {
                    Err(fault) => res == Some(Err::<(NameMap<String>, Vec<String>), IoFault>(fault)),
                    Ok(store) => {
                        &&& res matches Some(Ok(found)) && found.0.wf() && text_map(found.0@) == texts_upto(
                            store@,
                            names::views(sources@),
                            sources.len() as nat,
                        ) && names::views(found.1@) == missing_upto(
                            store@,
                            names::views(sources@),
                            sources.len() as nat,
                        )
                    },
                }
            },
    {
        if !self.registry.contains(name) {
            return None;
        }
        let store = match loaded {
            Err(fault) => {
                return Some(Err(fault));
            },
            Ok(store) => store,
        };
        let mut passages: NameMap<String> = NameMap::new();
        let mut missing: Vec<String> = Vec::new();
        let mut i: usize = 0;
        assert(text_map(passages@) =~= Map::empty());
        assert(names::views(missing@) =~= Seq::empty());
        while i < sources.len()
            invariant
                store.wf(),
                i <= sources.len(),
                passages.wf(),
                text_map(passages@) == texts_upto(store@, names::views(sources@), i as nat),
                names::views(missing@) == missing_upto(store@, names::views(sources@), i as nat),
            decreases sources.len() - i,
        {
            let source = &sources[i];
            assert(names::views(sources@)[i as int] == source@);
            match store.get(source.as_str()) {
                Some(record) => {
                    let text = record.text.clone();
                    let ghost was = passages@;
                    passages.insert(source.clone(), text);
                    assert(text_map(passages@) =~= text_map(was).insert(source@, text@));
                },
                None => {
                    let ghost was = missing@;
                    missing.push(source.clone());
                    assert(names::views(missing@) =~= names::views(was).push(source@));
                },
            }
            i = i + 1;
        }
        Some(Ok((passages, missing)))
    }

    /// One paragraph's text and markers.
    pub fn citation(&self, name: &str, loaded: Result<&PassageStore, IoFault>, source: &str, index: u32) -> (res: Option<
        Result<CitationLookup, IoFault>,
    >)
        requires
            self.wf(),
            loaded is Ok ==> (loaded->Ok_0).wf(),
        ensures
            if !self.registry@.contains_key(name@) {
                res is None
            } else {
                match loaded {
                    Err(fault) => res == Some(Err::<CitationLookup, IoFault>(fault)),
                    Ok(store) => res matches Some(Ok(found)) && citation_is(store@, source@, index, found),
                }
            },
    {
        if !self.registry.contains(name) {
            return None;
        }
        let store = match loaded {
            Err(fault) => {
                return Some(Err(fault));
            },
            Ok(store) => store,
        };
        let record = match store.get(source) {
            None => {
                return Some(Ok(CitationLookup::UnknownSource));
            },
            Some(record) => record,
        };
        match record.paragraph(index) {
            None => Some(Ok(CitationLookup::IndexOutOfRange)),
            Some(paragraph) => {
                let section = record.section_for(index);
                let locator = record.locator_for(index);
                Some(Ok(CitationLookup::Found { text: paragraph.text.clone(), section, locator }))
            },
        }
    }

    /// The markers of every key that has one. Enrichment only: an unknown
    /// context, or a store that could not be loaded, resolves nothing.
    pub fn resolve_markers(&self, name: &str, loaded: Result<&PassageStore, IoFault>, keys: &Vec<(String, u32)>) -> (res:
        Vec<((String, u32), Markers)>)
        requires
            self.wf(),
            loaded is Ok ==> (loaded->Ok_0).wf(),
        ensures
            if !self.registry@.contains_key(name@) || loaded is Err {
                res.len() == 0
            } else {
                markers_resolved((loaded->Ok_0)@, keys@, res@)
            },
    {
        let mut rows: Vec<((String, u32), Markers)> = Vec::new();
        if !self.registry.contains(name) {
            return rows;
        }
        let store = match loaded {
            Err(_) => {
                return rows;
            },
            Ok(store) => store,
        };
        let mut i: usize = 0;
        while i < keys.len()
            invariant
                store.wf(),
                i <= keys.len(),
                forall|k: int| 0 <= k < rows.len() ==> {
                    let row = #[trigger] rows@[k];
                    asked(keys@, row.0.0@, row.0.1) && is_marked(store@, row.0.0@, row.0.1) && markers_are(
                        store@,
                        row.0.0@,
                        row.0.1,
                        row.1,
                    )
                },
                forall|k: int|
                    0 <= k < i && is_marked(store@, (#[trigger] keys@[k]).0@, keys@[k].1) ==> resolved(
                        rows@,
                        keys@[k].0@,
                        keys@[k].1,
                    ),
                forall|k: int, l: int|
                    0 <= k < l < rows.len() ==> ((#[trigger] rows@[k]).0.0@ != (#[trigger] rows@[l]).0.0@ || rows@[k].0.1
                        != rows@[l].0.1),
            decreases keys.len() - i,
        {
            let source = &keys[i].0;
            let index: u32 = keys[i].1;
            let ghost was = rows@;
            if !has_row(&rows, source.as_str(), index) {
                if let Some(record) = store.get(source.as_str()) {
                    let section = record.section_for(index);
                    let locator = record.locator_for(index);
                    if section.is_some() || locator.is_some() {
                        assert(asks(keys@, source@, index, i as int));
                        rows.push(((source.clone(), index), Markers { section, locator }));
                        assert(resolves(rows@, source@, index, was.len() as int));
                        assert forall|k: int, l: int| 0 <= k < l < rows.len() implies ((#[trigger] rows@[k]).0.0@ != (
                        #[trigger] rows@[l]).0.0@ || rows@[k].0.1 != rows@[l].0.1) by {
                            if l == was.len() {
                                assert(!resolves(was, source@, index, k));
                            }
                        }
                    }
                }
            }
            assert forall|k: int| 0 <= k < i + 1 && is_marked(store@, (#[trigger] keys@[k]).0@, keys@[k].1) implies resolved(
                rows@,
                keys@[k].0@,
                keys@[k].1,
            ) by {
                if k < i {
                    let at = choose|at: int| resolves(was, keys@[k].0@, keys@[k].1, at);
                    assert(resolves(rows@, keys@[k].0@, keys@[k].1, at));
                }
            }
            i = i + 1;
        }
        proof {
            assert forall|source: Seq<char>, index: u32|
                #[trigger] asked(keys@, source, index) && is_marked(store@, source, index) implies resolved(
                rows@,
                source,
                index,
            ) by {
                let k = choose|k: int| asks(keys@, source, index, k);
                assert(keys@[k].0@ == source && keys@[k].1 == index);
            }
        }
        rows
    }

    /// The sources that have a passage, in name order.
    pub fn passage_sources(&self, name: &str, loaded: Result<&PassageStore, IoFault>) -> (res: Option<
        Result<Vec<String>, IoFault>,
    >)
        requires
            self.wf(),
            loaded is Ok ==> (loaded->Ok_0).wf(),
        ensures
            if !self.registry@.contains_key(name@) {
                res is None
            } else {
                match loaded {
                    Err(fault) => res == Some(Err::<Vec<String>, IoFault>(fault)),
                    Ok(store) => res matches Some(Ok(ids)) && names::views(ids@) == names::in_order(store@.dom()),
                }
            },
    {
        if !self.registry.contains(name) {
            return None;
        }
        let store = match loaded {
            Err(fault) => {
                return Some(Err(fault));
            },
            Ok(store) => store,
        };
        let mut ids: Vec<String> = Vec::new();
        let ghost order = store.order();
        let n: usize = store.len();
        let mut i: usize = 0;
        proof {
            store.order_is_domain();
        }
        while i < n
            invariant
                store.wf(),
                order == store.order(),
                n == order.len(),
                i <= n,
                names::views(ids@) == order.take(i as int),
            decreases n - i,
        {
            let id = store.key_at(i).clone();
            let ghost was = ids@;
            ids.push(id);
            assert(names::views(ids@) =~= names::views(was).push(id@));
            assert(names::views(ids@) =~= order.take(i + 1));
            i = i + 1;
        }
        assert(order.take(n as int) =~= order);
        Some(Ok(ids))
    }

    /// The sources that have a passage, in name order, each with its
    /// metadata.
    pub fn passage_source_entries(&self, name: &str, loaded: Result<&PassageStore, IoFault>) -> (res: Option<
        Result<Vec<(String, SourceMeta)>, IoFault>,
    >)
        requires
            self.wf(),
            loaded is Ok ==> (loaded->Ok_0).wf(),
        ensures
            if !self.registry@.contains_key(name@) {
                res is None
            } else {
                match loaded {
                    Err(fault) => res == Some(Err::<Vec<(String, SourceMeta)>, IoFault>(fault)),
                    Ok(store) => {
                        &&& res matches Some(Ok(rows)) && rows@.map_values(|r: (String, SourceMeta)| r.0@)
                            == names::in_order(store@.dom()) && forall|i: int|
                            0 <= i < rows.len() ==> (#[trigger] rows@[i]).1@ == store@[rows@[i].0@].meta@
                    },
                }
            },
    {
        if !self.registry.contains(name) {
            return None;
        }
        let store = match loaded {
            Err(fault) => {
                return Some(Err(fault));
            },
            Ok(store) => store,
        };
        let mut rows: Vec<(String, SourceMeta)> = Vec::new();
        let ghost order = store.order();
        let n: usize = store.len();
        let mut i: usize = 0;
        proof {
            store.order_is_domain();
        }
        while i < n
            invariant
                store.wf(),
                order == store.order(),
                n == order.len(),
                i <= n,
                rows@.map_values(|r: (String, SourceMeta)| r.0@) == order.take(i as int),
                forall|k: int| 0 <= k < rows.len() ==> (#[trigger] rows@[k]).1@ == store@[rows@[k].0@].meta@,
            decreases n - i,
        {
            let id = store.key_at(i).clone();
            let meta = store.value_at(i).meta.copy();
            let ghost was = rows@;
            rows.push((id, meta));
            assert(rows@.map_values(|r: (String, SourceMeta)| r.0@) =~= was.map_values(
                |r: (String, SourceMeta)| r.0@,
            ).push(id@));
            assert(rows@.map_values(|r: (String, SourceMeta)| r.0@) =~= order.take(i + 1));
            i = i + 1;
        }
        assert(order.take(n as int) =~= order);
        Some(Ok(rows))
    }
}

fn has_row(rows: &Vec<((String, u32), Markers)>, source: &str, index: u32) -> (res: bool)
    ensures
        res == resolved(rows@, source@, index),
{
    let mut i: usize = 0;
    while i < rows.len()
        invariant
            i <= rows.len(),
            forall|k: int| 0 <= k < i ==> !#[trigger] resolves(rows@, source@, index, k),
        decreases rows.len() - i,
    {
        let row = &rows[i];
        if row.0.1 == index && same(row.0.0.as_str(), source) {
            assert(resolves(rows@, source@, index, i as int));
            return true;
        }
        assert(!resolves(rows@, source@, index, i as int));
        i = i + 1;
    }
    false
}

/// A heading governs every paragraph from its own up to the next heading; a
/// locator governs its own paragraph alone.
pub proof fn headings_extend_and_locators_do_not(record: PassageRecord, at: u32, index: u32)
    requires
        at <= index,
        forall|j: int| 0 <= j < record.sections@.len() ==> !(at < (#[trigger] record.sections@[j]).0 <= index),
        forall|j: int| 0 <= j < record.locators@.len() ==> (#[trigger] record.locators@[j]).0 != index,
    ensures
        section_of(record, index) == section_of(record, at),
        locator_of(record, index) is None,
{
    let s = record.sections@;
    assert forall|i: int| heads(s, index, i) == heads(s, at, i) by {
        if heads(s, index, i) {
            assert(!(at < s[i].0 <= index));
            assert forall|j: int| 0 <= j < s.len() && (#[trigger] s[j]).0 <= at implies s[j].0 < s[i].0 || (s[j].0
                == s[i].0 && j <= i) by {
                assert(s[j].0 <= index);
            }
        }
        if heads(s, at, i) {
            assert forall|j: int| 0 <= j < s.len() && (#[trigger] s[j]).0 <= index implies s[j].0 < s[i].0 || (s[j].0
                == s[i].0 && j <= i) by {
                assert(!(at < s[j].0 <= index));
            }
        }
    }
    if exists|i: int| heads(s, index, i) {
        let a = choose|i: int| heads(s, index, i);
        let b = choose|i: int| heads(s, at, i);
        assert(heads(s, index, a) && heads(s, at, a));
        assert(heads(s, at, b));
        assert(s[a].0 <= at && s[b].0 <= at);
        assert(a == b);
    } else {
        assert(!exists|i: int| heads(s, at, i)) by {
            if exists|i: int| heads(s, at, i) {
                let b = choose|i: int| heads(s, at, i);
                assert(heads(s, index, b));
            }
        }
    }
    assert forall|i: int| !locates(record.locators@, index, i) by {
        if locates(record.locators@, index, i) {
            assert(record.locators@[i].0 != index);
        }
    }
}

/// A window that ends where another begins leaves no dated source out of
/// both and lets none into both.
pub proof fn adjacent_windows_split_the_dated(meta: SourceMetaView, at: u64)
    requires
        effective(meta) is Some,
    ensures
        (SourceFilter { tagged: None, since: None, until: Some(at) }).in_window(meta) != (SourceFilter {
            tagged: None,
            since: Some(at),
            until: None,
        }).in_window(meta),
{
}

/// A source without a time is in no window.
pub proof fn the_undated_are_in_no_window(meta: SourceMetaView, filter: SourceFilter)
    requires
        effective(meta) is None,
        filter.since is Some || filter.until is Some,
    ensures
        !filter.in_window(meta),
{
}

/// Batches that finish out of order leave the newest revision, whichever
/// came last, and a reader never sees the revision go back.
pub proof fn revisions_of_batches_only_grow(e: Entry, first: StoreOutcome, second: StoreOutcome)
    ensures
        after_store(e, first).passage_revision >= e.passage_revision,
        after_store(e, first).passage_revision >= first.watermark,
        after_store(after_store(e, first), second).passage_revision == after_store(
            after_store(e, second),
            first,
        ).passage_revision,
{
}

/// After a batch a context's sources are those it had and the batch's; a
/// source outside the batch answers as before.
pub proof fn batches_add_their_sources(store: Map<Seq<char>, PassageRecord>, batch: Map<Seq<char>, PassageRecord>, source: Seq<char>)
    ensures
        merged(store, batch).dom() == store.dom().union(batch.dom()),
        batch.contains_key(source) ==> merged(store, batch)[source] == batch[source],
        !batch.contains_key(source) && store.contains_key(source) ==> merged(store, batch)[source] == store[source],
{
    assert(merged(store, batch).dom() =~= store.dom().union(batch.dom()));
}

/// A batch is refused for its quota exactly where the context is at its
/// ceiling, and a refused batch changes no context.
pub proof fn quota_decides_a_batch(
    was: AppState,
    now: AppState,
    name: Seq<char>,
    refusal: Option<(u64, u64)>,
    res: Result<StoreTicket, PassagesWriteError>,
)
    requires
        was.registry@.contains_key(name),
        refusal == write_path::quota_excess(was, name, was.registry@[name]),
        admission_is(was, now, name, Some(res)),
    ensures
        res matches Err(PassagesWriteError::QuotaExceeded(_)) <==> refusal is Some,
        res is Err ==> now.registry == was.registry,
{
}

/// A source is from its own date, and where it has none from when it was
/// stored. A window lets in what is from its start or later and from before
/// its end; a window with both bounds lets in exactly what the window with
/// the one and the window with the other let in; and tags let in exactly the
/// sources that they name, apart from any window.
pub proof fn filters_are_met_bound_by_bound(filter: SourceFilter, source: Seq<char>, record: PassageRecord, at: u64)
    ensures
        filter.admits(source, record) <==> {
            &&& (SourceFilter { since: None, until: None, ..filter }).admits(source, record)
            &&& (SourceFilter { tagged: None, until: None, ..filter }).admits(source, record)
            &&& (SourceFilter { tagged: None, since: None, ..filter }).admits(source, record)
        },
        (SourceFilter { since: None, until: None, ..filter }).admits(source, record) <==> (filter.tagged matches Some(t)
            ==> t@.contains(source)),
        record.meta.date == Some(at) || (record.meta.date is None && record.meta.stored_at == Some(at)) ==> {
            &&& (SourceFilter { tagged: None, until: None, ..filter }).admits(source, record) <==> (
            filter.since matches Some(since) ==> at >= since)
            &&& (SourceFilter { tagged: None, since: None, ..filter }).admits(source, record) <==> (
            filter.until matches Some(until) ==> at < until)
        },
        record.meta.date is None && record.meta.stored_at is None ==> {
            &&& filter.since is Some ==> !filter.admits(source, record)
            &&& filter.until is Some ==> !filter.admits(source, record)
        },
{
}

/// A source at or past a window's end is not let in, whatever the window's
/// start; nor is one from before its start, whatever its end. Moving a bound
/// outward shuts nothing out.
pub proof fn windows_end_where_they_say(filter: SourceFilter, source: Seq<char>, record: PassageRecord, wider: SourceFilter)
    ensures
        filter.admits(source, record) && filter.until is Some ==> {
            &&& record.meta.date is Some ==> record.meta.date->0 < filter.until->0
            &&& record.meta.date is None ==> record.meta.stored_at is Some && record.meta.stored_at->0 < filter.until->0
        },
        filter.admits(source, record) && filter.since is Some ==> {
            &&& record.meta.date is Some ==> record.meta.date->0 >= filter.since->0
            &&& record.meta.date is None ==> record.meta.stored_at is Some && record.meta.stored_at->0 >= filter.since->0
        },
        filter.admits(source, record) && wider.tagged == filter.tagged && (wider.since is None || (filter.since is Some
            && wider.since->0 <= filter.since->0)) && (wider.until is None || (filter.until is Some && wider.until->0
            >= filter.until->0)) ==> wider.admits(source, record),
{
}

/// What a filter lets in of a store are the store's own sources that it
/// admits, all of them.
pub proof fn eligible_sources_are_those_admitted(store: Map<Seq<char>, PassageRecord>, filter: SourceFilter, source: Seq<char>)
    ensures
        eligible_in(store, filter).contains(source) ==> store.contains_key(source) && filter.admits(source, store[source]),
        store.contains_key(source) && filter.admits(source, store[source]) ==> eligible_in(store, filter).contains(source),
        store.contains_key(source) && (store[source].meta.date is Some || store[source].meta.stored_at is Some)
            <==> times_of(store).contains_key(source),
        store.contains_key(source) && store[source].meta.date is Some ==> times_of(store)[source]
            == store[source].meta.date->0,
        store.contains_key(source) && store[source].meta.date is None && store[source].meta.stored_at is Some ==> times_of(
            store,
        )[source] == store[source].meta.stored_at->0,
{
}

/// A paragraph stands under the nearest heading at or before it, the last of
/// several at one place, and carries the first locator of its own; where
/// there is none of the kind, it has none.
pub proof fn markers_are_the_nearest(record: PassageRecord, index: u32, i: int)
    requires
        0 <= i,
    ensures
        i < record.sections@.len() && record.sections@[i].0 <= index && (forall|j: int|
            0 <= j < record.sections@.len() && j != i && (#[trigger] record.sections@[j]).0 <= index
                ==> record.sections@[j].0 < record.sections@[i].0 || (record.sections@[j].0 == record.sections@[i].0 && j
                < i)) ==> section_of(record, index) == Some(record.sections@[i].1@),
        (forall|j: int| 0 <= j < record.sections@.len() ==> (#[trigger] record.sections@[j]).0 > index) ==> section_of(
            record,
            index,
        ) is None,
        i < record.locators@.len() && record.locators@[i].0 == index && (forall|j: int|
            0 <= j < i ==> (#[trigger] record.locators@[j]).0 != index) ==> locator_of(record, index) == Some(
            record.locators@[i].1,
        ),
        (forall|j: int| 0 <= j < record.locators@.len() ==> (#[trigger] record.locators@[j]).0 != index) ==> locator_of(
            record,
            index,
        ) is None,
{
    let s = record.sections@;
    let l = record.locators@;
    if i < s.len() && s[i].0 <= index && (forall|j: int|
        0 <= j < s.len() && j != i && (#[trigger] s[j]).0 <= index ==> s[j].0 < s[i].0 || (s[j].0 == s[i].0 && j < i)) {
        assert(heads(s, index, i));
        let k = choose|k: int| heads(s, index, k);
        assert(heads(s, index, k));
        assert(s[k].0 <= index && s[i].0 <= index);
        assert(k == i);
    }
    if forall|j: int| 0 <= j < s.len() ==> (#[trigger] s[j]).0 > index {
        assert forall|k: int| !heads(s, index, k) by {
            if heads(s, index, k) {
                assert(s[k].0 > index);
            }
        }
    }
    if i < l.len() && l[i].0 == index && (forall|j: int| 0 <= j < i ==> (#[trigger] l[j]).0 != index) {
        assert(locates(l, index, i));
        let k = choose|k: int| locates(l, index, k);
        assert(locates(l, index, k));
        if k < i {
            assert(l[k].0 != index);
        } else if i < k {
            assert(l[i].0 != index);
        }
    }
    if forall|j: int| 0 <= j < l.len() ==> (#[trigger] l[j]).0 != index {
        assert forall|k: int| !locates(l, index, k) by {
            if locates(l, index, k) {
                assert(l[k].0 != index);
            }
        }
    }
}

/// A citation answers with the text of the paragraph it names, and with that
/// paragraph's own markers; it says whether it is the source or the place
/// that is not there.
pub proof fn citations_answer_their_own_paragraph(
    store: Map<Seq<char>, PassageRecord>,
    source: Seq<char>,
    index: u32,
    res: CitationLookup,
)
    requires
        citation_is(store, source, index, res),
    ensures
        res is UnknownSource <==> !store.contains_key(source),
        res is IndexOutOfRange <==> store.contains_key(source) && index >= store[source].paragraphs@.len(),
        res matches CitationLookup::Found { text, section, locator } ==> {
            &&& text@ == store[source].paragraphs@[index as int].text@
            &&& section is Some <==> section_of(store[source], index) is Some
            &&& section is Some ==> (section->0)@ == section_of(store[source], index)->0
            &&& locator == locator_of(store[source], index)
        },
{
}

/// Each key that has a marker is answered once, with its markers; the others
/// are not answered.
pub proof fn markers_are_answered_once(
    store: Map<Seq<char>, PassageRecord>,
    keys: Seq<(String, u32)>,
    rows: Seq<((String, u32), Markers)>,
    k: int,
    i: int,
    j: int,
)
    requires
        markers_resolved(store, keys, rows),
    ensures
        0 <= k < keys.len() && store.contains_key(keys[k].0@) && (section_of(store[keys[k].0@], keys[k].1) is Some
            || locator_of(store[keys[k].0@], keys[k].1) is Some) ==> exists|r: int|
            0 <= r < rows.len() && (#[trigger] rows[r]).0.0@ == keys[k].0@ && rows[r].0.1 == keys[k].1,
        0 <= i < rows.len() ==> {
            &&& exists|k: int| 0 <= k < keys.len() && (#[trigger] keys[k]).0@ == rows[i].0.0@ && keys[k].1 == rows[i].0.1
            &&& store.contains_key(rows[i].0.0@)
            &&& rows[i].1.section is Some || rows[i].1.locator is Some
            &&& rows[i].1.section is Some <==> section_of(store[rows[i].0.0@], rows[i].0.1) is Some
            &&& rows[i].1.section is Some ==> (rows[i].1.section->0)@ == section_of(store[rows[i].0.0@], rows[i].0.1)->0
            &&& rows[i].1.locator == locator_of(store[rows[i].0.0@], rows[i].0.1)
        },
        0 <= i < j < rows.len() ==> rows[i].0.0@ != rows[j].0.0@ || rows[i].0.1 != rows[j].0.1,
{
    if 0 <= k < keys.len() && is_marked(store, keys[k].0@, keys[k].1) {
        assert(asks(keys, keys[k].0@, keys[k].1, k));
        assert(asked(keys, keys[k].0@, keys[k].1));
        let r = choose|r: int| resolves(rows, keys[k].0@, keys[k].1, r);
        assert(rows[r].0.0@ == keys[k].0@);
    }
    if 0 <= i < rows.len() {
        let row = rows[i];
        let k = choose|k: int| asks(keys, row.0.0@, row.0.1, k);
        assert(keys[k].0@ == rows[i].0.0@);
    }
}

/// A lookup answers every source that it is asked for: those that the store
/// holds with their text, the others as missing, each as often as it was
/// asked for and in that order. What is returned is where each missing one
/// was asked for.
pub proof fn lookups_answer_every_source(store: Map<Seq<char>, PassageRecord>, sources: Seq<Seq<char>>, n: nat) -> (at: Seq<int>)
    requires
        n <= sources.len(),
    ensures
        picking::picks(sources, n, |i: int| !store.contains_key(sources[i]), missing_upto(store, sources, n), at),
        forall|i: int|
            0 <= i < n && store.contains_key(#[trigger] sources[i]) ==> texts_upto(store, sources, n).contains_key(
                sources[i],
            ),
        forall|s: Seq<char>| #[trigger]
            texts_upto(store, sources, n).contains_key(s) ==> store.contains_key(s) && texts_upto(store, sources, n)[s]
                == store[s].text@ && exists|i: int| 0 <= i < n && #[trigger] sources[i] == s,
    decreases n,
{
    let p = |i: int| !store.contains_key(sources[i]);
    if n == 0 {
        Seq::empty()
    } else {
        let m = (n - 1) as nat;
        let at = lookups_answer_every_source(store, sources, m);
        picking::picks_on(sources, m, p, missing_upto(store, sources, m), at, missing_upto(store, sources, n));
        let was = texts_upto(store, sources, m);
        assert forall|s: Seq<char>| #[trigger] texts_upto(store, sources, n).contains_key(s) implies store.contains_key(s)
            && texts_upto(store, sources, n)[s] == store[s].text@ && exists|i: int| 0 <= i < n && #[trigger] sources[i] == s by {
            if s == sources[n - 1] && store.contains_key(s) {
                assert(sources[n - 1] == s);
            } else {
                assert(was.contains_key(s));
                let i = choose|i: int| 0 <= i < m && #[trigger] sources[i] == s;
                assert(sources[i] == s);
            }
        }
        picking::and_next(at, m, p(m as int))
    }
}

/// A batch of passages changes what the context knows of its store, marks its
/// vectors as behind, and moves the revision to the newer of the two; nothing
/// else. A load brings the store and its revision in and touches nothing
/// else, and a failed one leaves a mark alone.
pub proof fn passages_change_nothing_else(
    e: Entry,
    outcome: StoreOutcome,
    loaded: Result<LoadedPassages, IoFault>,
    now: u64,
    retry: u64,
)
    ensures
        after_store(e, outcome).passages == Some(outcome.facts),
        after_store(e, outcome).passages_embed_dirty,
        after_store(e, outcome).passage_revision == e.passage_revision || after_store(e, outcome).passage_revision
            == outcome.watermark,
        after_store(e, outcome).passage_revision >= e.passage_revision,
        after_store(e, outcome).passage_revision >= outcome.watermark,
        (Entry {
            passages: e.passages,
            passages_embed_dirty: e.passages_embed_dirty,
            passage_revision: e.passage_revision,
            ..after_store(e, outcome)
        }) == e,
        e.passages is Some ==> after_passages_load(e, loaded, now, retry) == e && passages_refusal(
            e,
            loaded,
            now,
            retry,
        ) is None,
        (Entry {
            passages: e.passages,
            passage_revision: e.passage_revision,
            passages_load_failure: e.passages_load_failure,
            ..after_passages_load(e, loaded, now, retry)
        }) == e,
        after_passages_load(e, loaded, now, retry).passage_revision >= e.passage_revision,
        e.passages is None && e.passages_load_failure is None ==> match loaded {
            Ok(store) => {
                &&& after_passages_load(e, loaded, now, retry).passages == Some(store.facts)
                &&& after_passages_load(e, loaded, now, retry).passage_revision >= store.watermark
                &&& after_passages_load(e, loaded, now, retry).passages_load_failure is None
            },
            Err(fault) => {
                &&& after_passages_load(e, loaded, now, retry).passages is None
                &&& after_passages_load(e, loaded, now, retry).passages_load_failure == Some(
                    LoadFailure { message: fault.message, at: now },
                )
            },
        },
{
}

/// A source has a time where it is dated or where it is known when it was
/// stored; its date comes first. A source without either is not listed.
pub proof fn times_are_dates_first(store: Map<Seq<char>, PassageRecord>, source: Seq<char>)
    ensures
        times_of(store).contains_key(source) <==> store.contains_key(source) && (store[source].meta@.date is Some
            || store[source].meta@.stored_at is Some),
        store.contains_key(source) && store[source].meta@.date is Some ==> times_of(store)[source] == store[source].meta@.date->0,
        store.contains_key(source) && store[source].meta@.date is None && store[source].meta@.stored_at is Some ==> times_of(
            store,
        )[source] == store[source].meta@.stored_at->0,
{
}

/// Every source of a batch is announced once, as stored, in its place.
pub proof fn every_stored_source_is_announced(sources: Seq<Seq<char>>, changes: Seq<ChangeKind>, i: int)
    requires
        stored_changes(sources, changes),
    ensures
        changes.len() == sources.len(),
        0 <= i < sources.len() ==> (changes[i] matches ChangeKind::SourceStored { source } && source@ == sources[i]),
{
}

/// Passages that are resident are never refused. Where they are not, they are
/// refused from memory while the last load failed less than `retry` seconds
/// ago, and then by how the load comes out, in its own words; a load that
/// goes through is never refused.
pub proof fn passages_are_loaded_or_refused(e: Entry, loaded: Result<LoadedPassages, IoFault>, now: u64, retry: u64)
    ensures
        ({
            let refused = passages_refusal(e, loaded, now, retry);
            let after = after_passages_load(e, loaded, now, retry);
            let fresh = e.passages_load_failure is Some && (if now > (e.passages_load_failure->0).at {
                now - (e.passages_load_failure->0).at < retry
            } else {
                retry > 0
            });
            &&& e.passages is Some ==> refused is None
            &&& e.passages is None && fresh ==> refused == Some(
                (false, "quarantined after a failed load: "@ + (e.passages_load_failure->0).message@),
            ) && after == e
            &&& e.passages is None && !fresh && loaded is Ok ==> refused is None && after.passages == Some(loaded->Ok_0.facts)
                && after.passages_load_failure is None && (after.passage_revision == e.passage_revision
                || after.passage_revision == loaded->Ok_0.watermark) && after.passage_revision >= loaded->Ok_0.watermark
            &&& e.passages is None && !fresh && loaded is Err ==> refused == Some(
                (loaded->Err_0.not_found, loaded->Err_0.message@),
            ) && after.passages is None && after.passage_revision == e.passage_revision && after.passages_load_failure
                == Some(LoadFailure { message: loaded->Err_0.message, at: now })
        }),
{
}

} // verus!
