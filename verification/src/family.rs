//! A context's file family: which files it has, how the family moves, and
//! what is cleared before a new one lands.
use crate::names;
use crate::paths;
use crate::paths::{
    bm25_path, deleted_marker_path, image_path, import_marker_paths, meta_path, passages_path, passages_wal_path,
    pvectors_path, rename_markers_targeting, renaming_marker_path, schema_path, sources_path, vectors_path, wal_path,
    RenameMarker,
};
use crate::picking;
use crate::state;
use crate::state::{ContextMeta, ContextStats, ContextUsage, IoFault, MetaFile};
use crate::retrieval_cache::ContextRevision;
use crate::text::same;
use vstd::prelude::*;

verus! {

/// What a sidecar's bytes turned out to be.
pub enum SidecarRead {
    /// It was read and it parsed.
    Parsed(MetaFile),
    /// There is none.
    Missing,
    /// It is there, but could not be read or did not parse.
    Unreadable,
}

/// The sidecar that stands in for one that could not be read: the defaults,
/// with the config revision taken from the clock so that it meets no
/// revision that was served before.
pub open spec fn is_degraded(file: MetaFile, now: u64) -> bool {
    &&& file.meta.is_default()
    &&& file.stats == state::zero_stats()
    &&& file.usage == state::zero_usage()
    &&& file.revision == (ContextRevision { graph: 0, passages: 0, config: now })
    &&& file.schema_digest is None
}

/// The sidecar to stand in for one that could not be read.
pub fn degraded(now: u64) -> (res: MetaFile)
    ensures
        is_degraded(res, now),
{
    MetaFile {
        meta: ContextMeta::default(),
        stats: ContextStats::default(),
        usage: ContextUsage::default(),
        revision: ContextRevision { graph: 0, passages: 0, config: now },
        schema_digest: None,
    }
}

/// The sidecar to go by: a missing one is the default, one that could not be
/// read is degraded. A bad sidecar never makes the image unreachable.
pub fn read_meta_file(read: SidecarRead, now: u64) -> (res: MetaFile)
    ensures
        match read {
            SidecarRead::Parsed(file) => res == file,
            SidecarRead::Missing => res.is_default(),
            SidecarRead::Unreadable => is_degraded(res, now),
        },
{
    match read {
        SidecarRead::Parsed(file) => file,
        SidecarRead::Missing => MetaFile::default(),
        SidecarRead::Unreadable => degraded(now),
    }
}

/// The recorded schema digest alone, with the same leniency.
pub fn schema_digest_of(read: SidecarRead) -> (res: Option<String>)
    ensures
        res == match read {
            SidecarRead::Parsed(file) => file.schema_digest,
            _ => None,
        },
{
    match read {
        SidecarRead::Parsed(file) => file.schema_digest,
        SidecarRead::Missing => None,
        SidecarRead::Unreadable => None,
    }
}

/// The names of a context's files, the image first and the schema last.
pub open spec fn family_of(stem: Seq<char>) -> Seq<Seq<char>> {
    seq![
        stem + ".ctx"@,
        stem + ".meta.json"@,
        stem + ".sources.json"@,
        stem + ".passages.bin"@,
        stem + ".passages.wal.jsonl"@,
        stem + ".pvectors.bin"@,
        stem + ".bm25.bin"@,
        stem + ".vectors.bin"@,
        stem + ".wal.jsonl"@,
        stem + ".schema.json"@,
    ]
}

/// One context's whole file family: what deleting removes and renaming
/// moves.
pub fn context_files(stem: &str) -> (res: Vec<String>)
    ensures
        names::views(res@) == family_of(stem@),
{
    let mut res: Vec<String> = Vec::new();
    res.push(image_path(stem));
    res.push(meta_path(stem));
    res.push(sources_path(stem));
    res.push(passages_path(stem));
    res.push(passages_wal_path(stem));
    res.push(pvectors_path(stem));
    res.push(bm25_path(stem));
    res.push(vectors_path(stem));
    res.push(wal_path(stem));
    res.push(schema_path(stem));
    assert(names::views(res@) =~= family_of(stem@));
    res
}

/// A family's move under way, file by file in the family's order.
pub struct FamilyMove {
    /// How many renames were tried.
    pub tried: usize,
    pub moved_any: bool,
    /// The image did not move: nothing else does either.
    pub stopped: bool,
    pub first_error: Option<IoFault>,
}

/// What a move is after the renames that were tried so far came out as
/// `outcomes`.
pub open spec fn move_after(outcomes: Seq<Result<(), IoFault>>, m: FamilyMove) -> bool {
    &&& m.tried == outcomes.len()
    &&& m.moved_any == exists|i: int| 0 <= i < outcomes.len() && #[trigger] outcomes[i] is Ok
    &&& m.stopped == (outcomes.len() > 0 && is_fault(outcomes[0]))
    &&& match m.first_error {
        Some(fault) => exists|i: int| #[trigger] first_fault(outcomes, i) && outcomes[i]->Err_0 == fault,
        None => forall|i: int| 0 <= i < outcomes.len() ==> !is_fault(#[trigger] outcomes[i]),
    }
}

/// A rename or a removal that failed, other than on a file that is not
/// there.
pub open spec fn is_fault(outcome: Result<(), IoFault>) -> bool {
    match outcome {
        Ok(_) => false,
        Err(fault) => !fault.not_found,
    }
}

/// The `i`-th outcome is the first that counts.
pub open spec fn first_fault(outcomes: Seq<Result<(), IoFault>>, i: int) -> bool {
    &&& 0 <= i < outcomes.len() && is_fault(outcomes[i])
    &&& forall|j: int| 0 <= j < i ==> !is_fault(#[trigger] outcomes[j])
}

/// The `i`-th outcome is the last that counts.
pub open spec fn last_fault(outcomes: Seq<Result<(), IoFault>>, i: int) -> bool {
    &&& 0 <= i < outcomes.len() && is_fault(outcomes[i])
    &&& forall|j: int| i < j < outcomes.len() ==> !is_fault(#[trigger] outcomes[j])
}

impl FamilyMove {
    pub fn start() -> (res: FamilyMove)
        ensures
            move_after(Seq::empty(), res),
    {
        FamilyMove { tried: 0, moved_any: false, stopped: false, first_error: None }
    }

    /// The position of the next file to rename, if any is left.
    pub fn next(&self) -> (res: Option<usize>)
        ensures
            res == if !self.stopped && self.tried < 10 {
                Some(self.tried)
            } else {
                None
            },
    {
        if !self.stopped && self.tried < 10 {
            Some(self.tried)
        } else {
            None
        }
    }

    /// Notes how the next rename came out. A file that is not there was moved
    /// before. The image's failure stops the move; a later file's is
    /// remembered, and the rest move all the same.
    pub fn note(&mut self, outcome: Result<(), IoFault>)
        requires
            old(self).tried < 10,
        ensures
            final(self).tried == old(self).tried + 1,
            final(self).moved_any == (old(self).moved_any || outcome is Ok),
            final(self).stopped == (old(self).stopped || (old(self).tried == 0 && is_fault(outcome))),
            final(self).first_error == if old(self).first_error is None && is_fault(outcome) {
                Some(outcome->Err_0)
            } else {
                old(self).first_error
            },
    {
        let at: usize = self.tried;
        self.tried = at + 1;
        match outcome {
            Ok(_) => {
                self.moved_any = true;
            },
            Err(fault) => {
                if !fault.not_found {
                    if at == 0 {
                        self.stopped = true;
                    }
                    if self.first_error.is_none() {
                        self.first_error = Some(fault);
                    }
                }
            },
        }
    }

    /// Whether the directory has to be synced: something moved.
    pub fn needs_fsync(&self) -> (res: bool)
        ensures
            res == (self.moved_any && !self.stopped),
    {
        self.moved_any && !self.stopped
    }

    /// How the whole move came out: the first failure, or else the sync's.
    pub fn finish(self, fsync: Result<(), IoFault>) -> (res: Result<(), IoFault>)
        ensures
            res == match self.first_error {
                Some(fault) => Err(fault),
                None => if self.moved_any && !self.stopped {
                    fsync
                } else {
                    Ok(())
                },
            },
    {
        let synced = self.moved_any && !self.stopped;
        match self.first_error {
            Some(fault) => Err(fault),
            None => if synced {
                fsync
            } else {
                Ok(())
            },
        }
    }
}

/// One more outcome takes a move on as [`FamilyMove::note`] says.
pub proof fn noted_move(outcomes: Seq<Result<(), IoFault>>, was: FamilyMove, outcome: Result<(), IoFault>, now: FamilyMove)
    requires
        move_after(outcomes, was),
        now.tried == was.tried + 1,
        now.moved_any == (was.moved_any || outcome is Ok),
        now.stopped == (was.stopped || (was.tried == 0 && is_fault(outcome))),
        now.first_error == if was.first_error is None && is_fault(outcome) {
            Some(outcome->Err_0)
        } else {
            was.first_error
        },
    ensures
        move_after(outcomes.push(outcome), now),
{
    let all = outcomes.push(outcome);
    let n = outcomes.len() as int;
    assert(all[n] == outcome);
    assert(now.moved_any == exists|i: int| 0 <= i < all.len() && #[trigger] all[i] is Ok) by {
        if was.moved_any {
            let i = choose|i: int| 0 <= i < outcomes.len() && #[trigger] outcomes[i] is Ok;
            assert(all[i] is Ok);
        }
        if exists|i: int| 0 <= i < all.len() && #[trigger] all[i] is Ok {
            let i = choose|i: int| 0 <= i < all.len() && #[trigger] all[i] is Ok;
            if i < n {
                assert(outcomes[i] is Ok);
            }
        }
    }
    match was.first_error {
        Some(fault) => {
            let i = choose|i: int| #[trigger] first_fault(outcomes, i) && outcomes[i]->Err_0 == fault;
            assert(first_fault(all, i)) by {
                assert(all[i] == outcomes[i]);
                assert forall|j: int| 0 <= j < i implies !is_fault(#[trigger] all[j]) by {
                    assert(all[j] == outcomes[j]);
                }
            }
            assert(all[i]->Err_0 == fault);
        },
        None => {
            if is_fault(outcome) {
                assert(first_fault(all, n)) by {
                    assert forall|j: int| 0 <= j < n implies !is_fault(#[trigger] all[j]) by {
                        assert(all[j] == outcomes[j]);
                    }
                }
            } else {
                assert forall|i: int| 0 <= i < all.len() implies !is_fault(#[trigger] all[i]) by {
                    if i < n {
                        assert(all[i] == outcomes[i]);
                    }
                }
            }
        },
    }
    if n > 0 {
        assert(all[0] == outcomes[0]);
    }
}

/// Where the image will not move, no other file is tried: the family stays
/// whole under its old name.
pub proof fn pivot_failure_moves_nothing(outcome: Result<(), IoFault>, m: FamilyMove)
    requires
        is_fault(outcome),
        move_after(seq![outcome], m),
    ensures
        m.stopped,
        !m.moved_any,
        m.first_error == Some(outcome->Err_0),
{
    let all = seq![outcome];
    assert(all[0] == outcome);
    assert(!(exists|i: int| 0 <= i < all.len() && #[trigger] all[i] is Ok));
    match m.first_error {
        Some(fault) => {
            let i = choose|i: int| #[trigger] first_fault(all, i) && all[i]->Err_0 == fault;
            assert(i == 0);
        },
        None => {
            assert(!is_fault(all[0]));
        },
    }
}

/// Which of its two callers a sweep clears a stem for.
#[derive(Clone, Copy, PartialEq, Eq, Structural, Debug)]
pub enum StemSweep {
    /// A new generation is about to land: clear the whole prior family, the
    /// image too.
    FreshCreate,
    /// A rename's destination: the moved image replaces what stands there,
    /// and the rename's own marker stays.
    RenameDestination,
}

/// The file names that a sweep clears at the stem itself.
pub open spec fn stale_at_stem(stem: Seq<char>, mode: StemSweep) -> Seq<Seq<char>> {
    let always = seq![
        stem + ".wal.jsonl"@,
        stem + ".sources.json"@,
        stem + ".passages.bin"@,
        stem + ".passages.wal.jsonl"@,
        stem + ".pvectors.bin"@,
        stem + ".bm25.bin"@,
        stem + ".vectors.bin"@,
        stem + ".schema.json"@,
        stem + ".deleted"@,
        stem + ".renaming"@,
    ];
    if mode == StemSweep::FreshCreate {
        always.push(stem + ".ctx"@)
    } else {
        always
    }
}

/// The names other than `exclude`, of the first `n`.
pub open spec fn except_upto(list: Seq<Seq<char>>, exclude: Option<Seq<char>>, n: nat) -> Seq<Seq<char>>
    decreases n,
{
    if n == 0 {
        Seq::empty()
    } else {
        let rest = except_upto(list, exclude, (n - 1) as nat);
        if exclude == Some(list[n - 1]) {
            rest
        } else {
            rest.push(list[n - 1])
        }
    }
}

/// Everything that a sweep clears, in order: the stale files at the stem, the
/// markers of renames onto this name, but not the caller's own, and the
/// stem's import markers.
pub open spec fn stale_names(
    name: Seq<char>,
    stem: Seq<char>,
    mode: StemSweep,
    own_marker: Option<Seq<char>>,
    found: Seq<(Seq<char>, paths::MarkerView)>,
    listing: Seq<Seq<char>>,
) -> Seq<Seq<char>> {
    let targeting = paths::targeting_upto(found, name, found.len());
    stale_at_stem(stem, mode) + except_upto(targeting, own_marker, targeting.len()) + paths::import_markers_upto(
        stem,
        listing,
        listing.len(),
    )
}

/// Everything to clear before a generation lands at `stem`. `own_marker` is
/// the rename in progress, `found` every rename marker with its file, and
/// `listing` every file name in the data directory.
pub fn sweep_stale_stem_files(
    name: &str,
    stem: &str,
    mode: StemSweep,
    own_marker: Option<&str>,
    found: &Vec<(String, RenameMarker)>,
    listing: &Vec<String>,
) -> (res: Vec<String>)
    ensures
        names::views(res@) == stale_names(
            name@,
            stem@,
            mode,
            names::opt_view(own_marker),
            paths::found_views(found@),
            names::views(listing@),
        ),
{
    let mut res: Vec<String> = Vec::new();
    res.push(wal_path(stem));
    res.push(sources_path(stem));
    res.push(passages_path(stem));
    res.push(passages_wal_path(stem));
    res.push(pvectors_path(stem));
    res.push(bm25_path(stem));
    res.push(vectors_path(stem));
    res.push(schema_path(stem));
    res.push(deleted_marker_path(stem));
    res.push(renaming_marker_path(stem));
    if mode == StemSweep::FreshCreate {
        res.push(image_path(stem));
    }
    assert(names::views(res@) =~= stale_at_stem(stem@, mode));
    let ghost base = stale_at_stem(stem@, mode);
    let targeting = rename_markers_targeting(found, name);
    let ghost all = names::views(targeting@);
    let ghost own = names::opt_view(own_marker);
    let mut i: usize = 0;
    assert(base + Seq::<Seq<char>>::empty() =~= base);
    while i < targeting.len()
        invariant
            all == names::views(targeting@),
            own == names::opt_view(own_marker),
            i <= targeting.len(),
            names::views(res@) == base + except_upto(all, own, i as nat),
        decreases targeting.len() - i,
    {
        let excluded = match own_marker {
            Some(marker) => same(marker, targeting[i].as_str()),
            None => false,
        };
        assert(all[i as int] == targeting@[i as int]@);
        if !excluded {
            let ghost was = res@;
            res.push(targeting[i].clone());
            assert(names::views(res@) =~= names::views(was).push(all[i as int]));
            assert(names::views(res@) =~= base + except_upto(all, own, (i + 1) as nat));
        }
        i = i + 1;
    }
    let markers = import_marker_paths(stem, listing);
    append_names(&mut res, &markers);
    res
}

/// Puts every name of `more` behind `list`.
fn append_names(list: &mut Vec<String>, more: &Vec<String>)
    ensures
        names::views(final(list)@) == names::views(old(list)@) + names::views(more@),
{
    let ghost base = names::views(list@);
    let ghost tail = names::views(more@);
    let mut i: usize = 0;
    assert(base + tail.take(0) =~= base);
    while i < more.len()
        invariant
            tail == names::views(more@),
            i <= more.len(),
            names::views(list@) == base + tail.take(i as int),
        decreases more.len() - i,
    {
        let ghost was = list@;
        list.push(more[i].clone());
        assert(names::views(list@) =~= names::views(was).push(tail[i as int]));
        assert(names::views(list@) =~= base + tail.take(i + 1));
        i = i + 1;
    }
    assert(tail.take(i as int) =~= tail);
}

/// Everything that a deletion removes, in order: the family, the context's
/// own rename marker, the markers of renames onto it, and its import markers.
pub open spec fn doomed_names(
    name: Seq<char>,
    stem: Seq<char>,
    found: Seq<(Seq<char>, paths::MarkerView)>,
    listing: Seq<Seq<char>>,
) -> Seq<Seq<char>> {
    family_of(stem).push(stem + ".renaming"@) + paths::targeting_upto(found, name, found.len()) + paths::import_markers_upto(
        stem,
        listing,
        listing.len(),
    )
}

/// Everything that the deletion of a context removes. Each is tried, whatever
/// became of the others.
pub fn deletion_files(
    name: &str,
    stem: &str,
    found: &Vec<(String, RenameMarker)>,
    listing: &Vec<String>,
) -> (res: Vec<String>)
    ensures
        names::views(res@) == doomed_names(name@, stem@, paths::found_views(found@), names::views(listing@)),
{
    let mut res = context_files(stem);
    let ghost family = names::views(res@);
    let own = renaming_marker_path(stem);
    res.push(own);
    assert(names::views(res@) =~= family.push(own@));
    let targeting = rename_markers_targeting(found, name);
    append_names(&mut res, &targeting);
    let markers = import_marker_paths(stem, listing);
    append_names(&mut res, &markers);
    res
}

/// Whether an outcome stops a sweep: a file that is not there does not.
pub fn counts_as_fault(outcome: &Result<(), IoFault>) -> (res: bool)
    ensures
        res == is_fault(*outcome),
{
    match outcome {
        Ok(_) => false,
        Err(fault) => !fault.not_found,
    }
}

/// How a deletion's removals came out: the last failure counts, a file that
/// is not there never does.
pub fn deletion_outcome(outcomes: &Vec<Result<(), IoFault>>) -> (res: Result<(), IoFault>)
    ensures
        match res {
            Ok(_) => forall|i: int| 0 <= i < outcomes.len() ==> !is_fault(#[trigger] outcomes@[i]),
            Err(fault) => exists|i: int| #[trigger] last_fault(outcomes@, i) && outcomes@[i]->Err_0 == fault,
        },
{
    let mut i: usize = outcomes.len();
    while i > 0
        invariant
            i <= outcomes.len(),
            forall|j: int| i <= j < outcomes.len() ==> !is_fault(#[trigger] outcomes@[j]),
        decreases i,
    {
        i = i - 1;
        if counts_as_fault(&outcomes[i]) {
            match &outcomes[i] {
                Ok(_) => {},
                Err(fault) => {
                    assert(last_fault(outcomes@, i as int));
                    return Err(fault.copy());
                },
            }
        }
    }
    Ok(())
}

/// How a sweep's removals came out: the first failure counts and stops it.
pub fn sweep_outcome(outcomes: &Vec<Result<(), IoFault>>) -> (res: Result<(), IoFault>)
    ensures
        match res {
            Ok(_) => forall|i: int| 0 <= i < outcomes.len() ==> !is_fault(#[trigger] outcomes@[i]),
            Err(fault) => exists|i: int| #[trigger] first_fault(outcomes@, i) && outcomes@[i]->Err_0 == fault,
        },
{
    let mut i: usize = 0;
    while i < outcomes.len()
        invariant
            i <= outcomes.len(),
            forall|j: int| 0 <= j < i ==> !is_fault(#[trigger] outcomes@[j]),
        decreases outcomes.len() - i,
    {
        if counts_as_fault(&outcomes[i]) {
            match &outcomes[i] {
                Ok(_) => {},
                Err(fault) => {
                    assert(first_fault(outcomes@, i as int));
                    return Err(fault.copy());
                },
            }
        }
        i = i + 1;
    }
    Ok(())
}

/// A sweep for a new generation clears every file of the family but the
/// sidecar, which the new generation overwrites.
pub proof fn fresh_create_clears_the_family(stem: Seq<char>, i: int)
    requires
        0 <= i < 10,
        i != 1,
    ensures
        stale_at_stem(stem, StemSweep::FreshCreate).contains(family_of(stem)[i]),
{
    let stale = stale_at_stem(stem, StemSweep::FreshCreate);
    let f = family_of(stem);
    assert(stale[10] == f[0] && stale[1] == f[2] && stale[2] == f[3] && stale[3] == f[4] && stale[4] == f[5] && stale[5]
        == f[6] && stale[6] == f[7] && stale[0] == f[8] && stale[7] == f[9]);
}

proof fn endings_tell_files_apart(stem: Seq<char>, a: Seq<char>, b: Seq<char>)
    requires
        a != b,
    ensures
        stem + a != stem + b,
{
    if stem + a == stem + b {
        assert((stem + a).skip(stem.len() as int) =~= a);
        assert((stem + b).skip(stem.len() as int) =~= b);
    }
}

/// A context's family is ten files, no two of the same name, each named by
/// the stem and an ending of its own.
pub proof fn families_are_ten_files(stem: Seq<char>, i: int, j: int)
    ensures
        family_of(stem).len() == 10,
        0 <= i < j < 10 ==> family_of(stem)[i] != family_of(stem)[j],
        0 <= i < 10 ==> stem.is_prefix_of(family_of(stem)[i]) && family_of(stem)[i].len() > stem.len()
            && family_of(stem)[i][stem.len() as int] == '.',
        family_of(stem).contains(stem + ".ctx"@),
        family_of(stem).contains(stem + ".meta.json"@),
        family_of(stem).contains(stem + ".sources.json"@),
        family_of(stem).contains(stem + ".passages.bin"@),
        family_of(stem).contains(stem + ".passages.wal.jsonl"@),
        family_of(stem).contains(stem + ".pvectors.bin"@),
        family_of(stem).contains(stem + ".bm25.bin"@),
        family_of(stem).contains(stem + ".vectors.bin"@),
        family_of(stem).contains(stem + ".wal.jsonl"@),
        family_of(stem).contains(stem + ".schema.json"@),
        family_of(stem)[0] == stem + ".ctx"@,
{
    reveal_strlit(".ctx");
    reveal_strlit(".meta.json");
    reveal_strlit(".sources.json");
    reveal_strlit(".passages.bin");
    reveal_strlit(".passages.wal.jsonl");
    reveal_strlit(".pvectors.bin");
    reveal_strlit(".bm25.bin");
    reveal_strlit(".vectors.bin");
    reveal_strlit(".wal.jsonl");
    reveal_strlit(".schema.json");
    let f = family_of(stem);
    let ends = seq![
        ".ctx"@,
        ".meta.json"@,
        ".sources.json"@,
        ".passages.bin"@,
        ".passages.wal.jsonl"@,
        ".pvectors.bin"@,
        ".bm25.bin"@,
        ".vectors.bin"@,
        ".wal.jsonl"@,
        ".schema.json"@,
    ];
    assert(f[0] == stem + ".ctx"@ && f[1] == stem + ".meta.json"@ && f[2] == stem + ".sources.json"@ && f[3] == stem
        + ".passages.bin"@ && f[4] == stem + ".passages.wal.jsonl"@ && f[5] == stem + ".pvectors.bin"@ && f[6] == stem
        + ".bm25.bin"@ && f[7] == stem + ".vectors.bin"@ && f[8] == stem + ".wal.jsonl"@ && f[9] == stem + ".schema.json"@);
    if 0 <= i < 10 {
        assert(f[i] == stem + ends[i]);
        assert(ends[i][0] == '.');
        assert(stem =~= f[i].subrange(0, stem.len() as int));
    }
    if 0 <= i < j < 10 {
        assert(f[j] == stem + ends[j]);
        assert(ends[i] != ends[j]) by {
            assert(ends[i].len() == ends[j].len() ==> ends[i][2] != ends[j][2]);
        }
        endings_tell_files_apart(stem, ends[i], ends[j]);
    }
}

/// A sweep of a stem never takes the sidecar, and takes the image only for a
/// fresh creation; it takes both markers and every other file of the family.
pub proof fn sweeps_leave_the_sidecar(stem: Seq<char>, mode: StemSweep, i: int)
    ensures
        !stale_at_stem(stem, mode).contains(stem + ".meta.json"@),
        stale_at_stem(stem, mode).contains(stem + ".ctx"@) <==> mode == StemSweep::FreshCreate,
        stale_at_stem(stem, mode).contains(stem + ".deleted"@),
        stale_at_stem(stem, mode).contains(stem + ".renaming"@),
        2 <= i < 10 ==> stale_at_stem(stem, mode).contains(family_of(stem)[i]),
        stale_at_stem(stem, StemSweep::RenameDestination).len() == 10,
        stale_at_stem(stem, StemSweep::FreshCreate).len() == 11,
{
    reveal_strlit(".ctx");
    reveal_strlit(".meta.json");
    reveal_strlit(".sources.json");
    reveal_strlit(".passages.bin");
    reveal_strlit(".passages.wal.jsonl");
    reveal_strlit(".pvectors.bin");
    reveal_strlit(".bm25.bin");
    reveal_strlit(".vectors.bin");
    reveal_strlit(".wal.jsonl");
    reveal_strlit(".schema.json");
    reveal_strlit(".deleted");
    reveal_strlit(".renaming");
    let s = stale_at_stem(stem, mode);
    let f = family_of(stem);
    let ends = seq![
        ".wal.jsonl"@,
        ".sources.json"@,
        ".passages.bin"@,
        ".passages.wal.jsonl"@,
        ".pvectors.bin"@,
        ".bm25.bin"@,
        ".vectors.bin"@,
        ".schema.json"@,
        ".deleted"@,
        ".renaming"@,
        ".ctx"@,
    ];
    assert(s[1] == f[2] && s[2] == f[3] && s[3] == f[4] && s[4] == f[5] && s[5] == f[6] && s[6] == f[7] && s[0] == f[8]
        && s[7] == f[9]);
    assert(s[8] == stem + ".deleted"@ && s[9] == stem + ".renaming"@);
    assert(mode == StemSweep::FreshCreate ==> s[10] == stem + ".ctx"@);
    assert forall|k: int| 0 <= k < s.len() implies #[trigger] s[k] != stem + ".meta.json"@ && (k < 10 ==> s[k] != stem
        + ".ctx"@) by {
        assert(s[k] == stem + ends[k]);
        assert(ends[k] != ".meta.json"@) by {
            assert(ends[k].len() == 10 ==> ends[k][1] == 'w');
        }
        endings_tell_files_apart(stem, ends[k], ".meta.json"@);
        if k < 10 {
            assert(ends[k].len() > 4);
            endings_tell_files_apart(stem, ends[k], ".ctx"@);
        }
    }
}

/// An exclusion leaves out the one name and keeps all others in order. What
/// is returned is where each stands.
pub proof fn exclusions_leave_one_name_out(list: Seq<Seq<char>>, exclude: Option<Seq<char>>, n: nat) -> (at: Seq<int>)
    requires
        n <= list.len(),
    ensures
        picking::picks(list, n, |i: int| exclude is None || list[i] != exclude->0, except_upto(list, exclude, n), at),
    decreases n,
{
    let p = |i: int| exclude is None || list[i] != exclude->0;
    if n == 0 {
        Seq::empty()
    } else {
        let m = (n - 1) as nat;
        let before = exclusions_leave_one_name_out(list, exclude, m);
        picking::picks_on(list, m, p, except_upto(list, exclude, m), before, except_upto(list, exclude, n));
        picking::and_next(before, m, p(m as int))
    }
}

/// A sweep clears what is stale at the stem, every marker of a rename onto the
/// name but the caller's own, and every import marker of the stem; a deletion
/// takes the whole family, the rename marker, every marker of a rename onto
/// the name, and every import marker. Neither takes anything else.
pub proof fn sweeps_and_deletions_take_every_marker(
    name: Seq<char>,
    stem: Seq<char>,
    mode: StemSweep,
    own_marker: Option<Seq<char>>,
    found: Seq<(Seq<char>, paths::MarkerView)>,
    listing: Seq<Seq<char>>,
    file: Seq<char>,
)
    ensures
        stale_names(name, stem, mode, own_marker, found, listing).contains(file) <==> {
            ||| stale_at_stem(stem, mode).contains(file)
            ||| own_marker != Some(file) && exists|i: int|
                0 <= i < found.len() && (#[trigger] found[i]).0 == file && found[i].1.to == name
            ||| listing.contains(file) && paths::is_import_marker(stem, file)
        },
        doomed_names(name, stem, found, listing).contains(file) <==> {
            ||| family_of(stem).contains(file)
            ||| file == stem + ".renaming"@
            ||| exists|i: int| 0 <= i < found.len() && (#[trigger] found[i]).0 == file && found[i].1.to == name
            ||| listing.contains(file) && paths::is_import_marker(stem, file)
        },
{
    let targeting = paths::targeting_upto(found, name, found.len());
    let others = except_upto(targeting, own_marker, targeting.len());
    let imports = paths::import_markers_upto(stem, listing, listing.len());
    onto(found, name, found.len(), file);
    imported(stem, listing, listing.len(), file);
    excepted(targeting, own_marker, targeting.len(), file);
    assert(targeting.take(targeting.len() as int) =~= targeting);
    assert(listing.take(listing.len() as int) =~= listing);
    joined_contains(stale_at_stem(stem, mode), others, imports, file);
    let head = family_of(stem).push(stem + ".renaming"@);
    joined_contains(head, targeting, imports, file);
    let f = family_of(stem);
    if f.contains(file) {
        let i = choose|i: int| 0 <= i < f.len() && f[i] == file;
        assert(head[i] == file);
    }
    assert(head[f.len() as int] == stem + ".renaming"@);
    if head.contains(file) {
        let i = choose|i: int| 0 <= i < head.len() && head[i] == file;
        if i < f.len() {
            assert(f[i] == file);
        }
    }
}

proof fn joined_contains(a: Seq<Seq<char>>, b: Seq<Seq<char>>, c: Seq<Seq<char>>, x: Seq<char>)
    ensures
        (a + b + c).contains(x) <==> a.contains(x) || b.contains(x) || c.contains(x),
{
    let all = a + b + c;
    if a.contains(x) {
        let i = choose|i: int| 0 <= i < a.len() && a[i] == x;
        assert(all[i] == x);
    }
    if b.contains(x) {
        let i = choose|i: int| 0 <= i < b.len() && b[i] == x;
        assert(all[a.len() + i] == x);
    }
    if c.contains(x) {
        let i = choose|i: int| 0 <= i < c.len() && c[i] == x;
        assert(all[a.len() + b.len() + i] == x);
    }
    if all.contains(x) {
        let i = choose|i: int| 0 <= i < all.len() && all[i] == x;
        if i < a.len() {
            assert(a[i] == x);
        } else if i < a.len() + b.len() {
            assert(b[i - a.len()] == x);
        } else {
            assert(c[i - a.len() - b.len()] == x);
        }
    }
}

proof fn onto(found: Seq<(Seq<char>, paths::MarkerView)>, name: Seq<char>, n: nat, file: Seq<char>)
    requires
        n <= found.len(),
    ensures
        paths::targeting_upto(found, name, n).contains(file) <==> exists|i: int|
            0 <= i < n && (#[trigger] found[i]).0 == file && found[i].1.to == name,
{
    let at = paths::every_rename_onto_a_name_is_found(found, name, n);
    let p = |i: int| found[i].1.to == name;
    let t = paths::targeting_upto(found, name, n);
    if t.contains(file) {
        let k = choose|k: int| 0 <= k < t.len() && t[k] == file;
        assert(p(at[k]));
        assert(found[at[k]].0 == file);
    }
    if exists|i: int| 0 <= i < n && (#[trigger] found[i]).0 == file && found[i].1.to == name {
        let i = choose|i: int| 0 <= i < n && (#[trigger] found[i]).0 == file && found[i].1.to == name;
        assert(p(i));
        let k = choose|k: int| 0 <= k < at.len() && #[trigger] at[k] == i;
        assert(t[k] == file);
    }
}

proof fn imported(stem: Seq<char>, listing: Seq<Seq<char>>, n: nat, file: Seq<char>)
    requires
        n <= listing.len(),
    ensures
        paths::import_markers_upto(stem, listing, n).contains(file) <==> listing.take(n as int).contains(file)
            && paths::is_import_marker(stem, file),
    decreases n,
{
    if n > 0 {
        let m = (n - 1) as nat;
        imported(stem, listing, m, file);
        let rest = paths::import_markers_upto(stem, listing, m);
        let now = paths::import_markers_upto(stem, listing, n);
        one_more(listing, n as int, file);
        if paths::is_import_marker(stem, listing[m as int]) {
            pushed_one(rest, listing[m as int], file);
        }
    }
}

proof fn excepted(list: Seq<Seq<char>>, exclude: Option<Seq<char>>, n: nat, file: Seq<char>)
    requires
        n <= list.len(),
    ensures
        except_upto(list, exclude, n).contains(file) <==> list.take(n as int).contains(file) && exclude != Some(file),
    decreases n,
{
    if n > 0 {
        let m = (n - 1) as nat;
        excepted(list, exclude, m, file);
        one_more(list, n as int, file);
        if exclude != Some(list[m as int]) {
            pushed_one(except_upto(list, exclude, m), list[m as int], file);
        }
    }
}

proof fn one_more(list: Seq<Seq<char>>, n: int, x: Seq<char>)
    requires
        0 < n <= list.len(),
    ensures
        list.take(n).contains(x) <==> list.take(n - 1).contains(x) || list[n - 1] == x,
{
    let now = list.take(n);
    let was = list.take(n - 1);
    assert(now =~= was.push(list[n - 1]));
    pushed_one(was, list[n - 1], x);
}

proof fn pushed_one(s: Seq<Seq<char>>, y: Seq<char>, x: Seq<char>)
    ensures
        s.push(y).contains(x) <==> s.contains(x) || x == y,
{
    let now = s.push(y);
    if s.contains(x) {
        let i = choose|i: int| 0 <= i < s.len() && s[i] == x;
        assert(now[i] == x);
    }
    assert(now[s.len() as int] == y);
    if now.contains(x) {
        let i = choose|i: int| 0 <= i < now.len() && now[i] == x;
        if i < s.len() {
            assert(s[i] == x);
        }
    }
}

/// A file that was not there to be moved or removed is no fault; any other
/// failure is. The first and the last fault of a run are what they are
/// called.
pub proof fn missing_files_are_no_faults(outcomes: Seq<Result<(), IoFault>>, i: int, j: int, fault: IoFault)
    ensures
        !is_fault(Ok(())),
        is_fault(Err(fault)) <==> !fault.not_found,
        first_fault(outcomes, i) && first_fault(outcomes, j) ==> i == j,
        last_fault(outcomes, i) && last_fault(outcomes, j) ==> i == j,
        first_fault(outcomes, i) && 0 <= j < outcomes.len() && is_fault(outcomes[j]) ==> i <= j,
        last_fault(outcomes, i) && 0 <= j < outcomes.len() && is_fault(outcomes[j]) ==> j <= i,
{
    if first_fault(outcomes, i) && 0 <= j < i && is_fault(outcomes[j]) {
        assert(!is_fault(outcomes[j]));
    }
    if last_fault(outcomes, i) && i < j < outcomes.len() && is_fault(outcomes[j]) {
        assert(!is_fault(outcomes[j]));
    }
}

/// A sidecar that stands in for an unreadable one says nothing but the config
/// revision that it was given.
pub proof fn stand_ins_say_nothing(file: MetaFile, now: u64)
    requires
        is_degraded(file, now),
    ensures
        file.meta.description@.len() == 0 && !file.meta.pinned && file.meta.dice_floor is None && file.meta.semantic_floor
            is None,
        file.stats.concepts == 0 && file.stats.associations == 0 && file.stats.labels == 0 && file.stats.sources == 0,
        file.usage.reads == 0 && file.usage.writes == 0 && file.usage.empty_reads == 0 && file.usage.last_read_epoch == 0
            && file.usage.last_write_epoch == 0,
        file.revision.graph == 0 && file.revision.passages == 0 && file.revision.config == now,
        file.schema_digest is None,
{
}

proof fn faults_are_found_upto(outcomes: Seq<Result<(), IoFault>>, n: nat)
    requires
        n <= outcomes.len(),
        exists|i: int| 0 <= i < n && is_fault(#[trigger] outcomes[i]),
    ensures
        exists|i: int| first_fault(outcomes, i),
    decreases n,
{
    if exists|i: int| 0 <= i < n - 1 && is_fault(#[trigger] outcomes[i]) {
        faults_are_found_upto(outcomes, (n - 1) as nat);
    } else {
        let i = choose|i: int| 0 <= i < n && is_fault(#[trigger] outcomes[i]);
        assert(first_fault(outcomes, i));
    }
}

proof fn faults_are_found_from(outcomes: Seq<Result<(), IoFault>>, n: nat)
    requires
        n <= outcomes.len(),
        exists|i: int| n <= i < outcomes.len() && is_fault(#[trigger] outcomes[i]),
    ensures
        exists|i: int| last_fault(outcomes, i),
    decreases outcomes.len() - n,
{
    if exists|i: int| n + 1 <= i < outcomes.len() && is_fault(#[trigger] outcomes[i]) {
        faults_are_found_from(outcomes, n + 1);
    } else {
        let i = choose|i: int| n <= i < outcomes.len() && is_fault(#[trigger] outcomes[i]);
        assert(last_fault(outcomes, i));
    }
}

/// Wherever a run had a fault, it has a first and a last one.
pub proof fn every_fault_is_found(outcomes: Seq<Result<(), IoFault>>, i: int)
    requires
        0 <= i < outcomes.len(),
        is_fault(outcomes[i]),
    ensures
        exists|a: int| first_fault(outcomes, a),
        exists|b: int| last_fault(outcomes, b),
{
    faults_are_found_upto(outcomes, outcomes.len());
    faults_are_found_from(outcomes, 0);
}

/// A move counts every file that was tried, says whether any moved, stops
/// where its first file failed, and keeps the first fault.
pub proof fn moves_keep_their_first_fault(outcomes: Seq<Result<(), IoFault>>, m: FamilyMove, i: int)
    requires
        move_after(outcomes, m),
    ensures
        m.tried == outcomes.len(),
        0 <= i < outcomes.len() && outcomes[i] is Ok ==> m.moved_any,
        (forall|j: int| 0 <= j < outcomes.len() ==> (#[trigger] outcomes[j]) is Err) ==> !m.moved_any,
        m.stopped <==> outcomes.len() > 0 && outcomes[0] is Err && !(outcomes[0]->Err_0).not_found,
        m.first_error is None && 0 <= i < outcomes.len() && outcomes[i] is Err ==> (outcomes[i]->Err_0).not_found,
        0 <= i < outcomes.len() && outcomes[i] is Err && !(outcomes[i]->Err_0).not_found && (forall|j: int|
            0 <= j < i ==> (#[trigger] outcomes[j]) is Ok || (outcomes[j]->Err_0).not_found) ==> m.first_error == Some(
            outcomes[i]->Err_0,
        ),
{
    if m.first_error is None && 0 <= i < outcomes.len() {
        assert(!is_fault(outcomes[i]));
    }
    if 0 <= i < outcomes.len() && outcomes[i] is Err && !(outcomes[i]->Err_0).not_found && (forall|j: int|
        0 <= j < i ==> (#[trigger] outcomes[j]) is Ok || (outcomes[j]->Err_0).not_found) {
        assert(is_fault(outcomes[i]));
        assert(m.first_error is Some);
        let a = choose|a: int| #[trigger] first_fault(outcomes, a) && Some(outcomes[a]->Err_0) == m.first_error;
        assert(first_fault(outcomes, a));
        if a < i {
            assert(outcomes[a] is Ok || (outcomes[a]->Err_0).not_found);
        } else if i < a {
            assert(!is_fault(outcomes[i]));
        }
    }
}

} // verus!
