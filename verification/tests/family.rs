//! A context's files: its sidecar, and moving and clearing its family.
use registry::family::{
    context_files, counts_as_fault, degraded, deletion_files, deletion_outcome, read_meta_file, schema_digest_of, sweep_outcome,
    sweep_stale_stem_files, FamilyMove, SidecarRead, StemSweep,
};
use registry::paths::{
    deleted_marker_path, file_stem, image_path, import_marker_path, meta_path, renaming_marker_path, sources_path, RenameMarker,
};
use registry::retrieval_cache::ContextRevision;
use registry::state::{IoFault, MetaFile};
use std::collections::BTreeSet;

fn fault(message: &str) -> IoFault {
    IoFault { not_found: false, message: message.to_string() }
}

fn missing() -> IoFault {
    IoFault { not_found: true, message: "missing".to_string() }
}

#[test]
fn a_missing_sidecar_reports_a_plain_zeroed_default() {
    let meta = read_meta_file(SidecarRead::Missing, 1_700_000_000);
    assert_eq!(meta.revision, ContextRevision { graph: 0, passages: 0, config: 0 });
    assert_eq!(meta.schema_digest, None);
}

#[test]
fn a_corrupt_sidecar_seeds_config_revision_from_the_clock_instead_of_zero() {
    let now = 1_700_000_000;
    let meta = read_meta_file(SidecarRead::Unreadable, now);
    assert_eq!(meta.revision.graph, 0, "graph is floored by WAL replay");
    assert_eq!(meta.revision.passages, 0, "passages is floored by the store watermark");
    assert_eq!(meta.revision.config, now, "config must be a fresh clock reading, not zero");
    assert_eq!(meta.schema_digest, None);
}

#[test]
fn an_unreadable_sidecar_seeds_config_revision_from_the_clock_instead_of_zero() {
    let now = 1_700_000_000;
    let meta = read_meta_file(SidecarRead::Unreadable, now);
    assert_eq!(meta.revision.graph, 0);
    assert_eq!(meta.revision.passages, 0);
    assert_eq!(meta.revision.config, now);
    assert_eq!(degraded(now).revision, meta.revision);
}

#[test]
fn a_healthy_sidecar_reports_its_own_recorded_revision_unchanged() {
    let mut written = MetaFile::default();
    written.revision = ContextRevision { graph: 3, passages: 2, config: 1 };
    let meta = read_meta_file(SidecarRead::Parsed(written), 1_700_000_000);
    assert_eq!(meta.revision, ContextRevision { graph: 3, passages: 2, config: 1 });
}

#[test]
fn a_digest_is_read_only_from_a_sidecar_that_parses() {
    let mut written = MetaFile::default();
    written.schema_digest = Some("abc".to_string());
    assert_eq!(schema_digest_of(SidecarRead::Parsed(written)).as_deref(), Some("abc"));
    assert_eq!(schema_digest_of(SidecarRead::Missing), None);
    assert_eq!(schema_digest_of(SidecarRead::Unreadable), None);
}

/// Moves a family on a set of file names, failing the move of number `fail`
/// of those that are there.
fn move_family(disk: &mut BTreeSet<String>, from: &str, to: &str, fail: Option<usize>) -> Result<(), IoFault> {
    let sources = context_files(from);
    let targets = context_files(to);
    let mut run = FamilyMove::start();
    let mut ops = 0;
    while let Some(at) = run.next() {
        let outcome = if !disk.contains(&sources[at]) {
            Err(missing())
        } else if fail == Some(ops) {
            ops += 1;
            Err(fault("injected"))
        } else {
            ops += 1;
            disk.remove(&sources[at]);
            disk.insert(targets[at].clone());
            Ok(())
        };
        run.note(outcome);
    }
    run.finish(Ok(()))
}

#[test]
fn an_injected_pivot_rename_failure_moves_nothing() {
    let from = file_stem("sake");
    let to = file_stem("shochu");
    let mut disk = BTreeSet::from([image_path(&from), meta_path(&from)]);
    let error = move_family(&mut disk, &from, &to, Some(0)).err().unwrap();
    assert_eq!(error.message, "injected", "an injected failure, not a missing file");
    assert!(disk.contains(&image_path(&from)), "the pivot must stay put");
    assert!(disk.contains(&meta_path(&from)), "a post-pivot file must never be touched once the pivot itself failed");
    assert!(!disk.contains(&image_path(&to)));
    assert!(!disk.contains(&meta_path(&to)));
}

#[test]
fn an_injected_straggler_rename_failure_still_lets_later_files_move() {
    let from = file_stem("sake");
    let to = file_stem("shochu");
    let mut disk = BTreeSet::from([image_path(&from), meta_path(&from), sources_path(&from)]);
    let error = move_family(&mut disk, &from, &to, Some(1)).err().unwrap();
    assert_eq!(error.message, "injected");
    assert!(!disk.contains(&image_path(&from)), "the pivot already moved before the fault");
    assert!(disk.contains(&image_path(&to)));
    assert!(disk.contains(&meta_path(&from)), "the failed rename must never have touched the source");
    assert!(!disk.contains(&meta_path(&to)));
    assert!(!disk.contains(&sources_path(&from)) && disk.contains(&sources_path(&to)));
}

#[test]
fn a_failed_pivot_rename_moves_nothing() {
    let from = file_stem("sake");
    let to = file_stem("shochu");
    let mut disk = BTreeSet::from([image_path(&from), meta_path(&from), sources_path(&from)]);
    let before = disk.clone();
    assert!(move_family(&mut disk, &from, &to, Some(0)).is_err());
    assert!(disk.contains(&meta_path(&from)), "a failed pivot must leave every sibling under the old stem");
    assert!(!disk.contains(&meta_path(&to)), "no sibling may land under the new stem");
    assert_eq!(disk, before, "no sidecar may travel without its image");
}

#[test]
fn a_whole_family_moves_and_a_failed_sync_is_reported() {
    let from = file_stem("sake");
    let to = file_stem("shochu");
    let mut disk: BTreeSet<String> = context_files(&from).into_iter().collect();
    assert!(move_family(&mut disk, &from, &to, None).is_ok());
    assert_eq!(disk, context_files(&to).into_iter().collect::<BTreeSet<_>>());
    let mut run = FamilyMove::start();
    while run.next().is_some() {
        run.note(Ok(()));
    }
    assert!(run.needs_fsync());
    assert_eq!(run.finish(Err(fault("sync"))).err().unwrap().message, "sync");
}

#[test]
fn a_fresh_create_clears_the_family_and_every_marker_at_its_name() {
    let stem = file_stem("sake");
    let other = file_stem("beer");
    let marker = renaming_marker_path(&other);
    let found = vec![
        (marker.clone(), RenameMarker { from: "beer".to_string(), to: "sake".to_string() }),
        (renaming_marker_path("x"), RenameMarker { from: "x".to_string(), to: "y".to_string() }),
    ];
    let import = import_marker_path(&stem, "doc.md");
    let listing = vec![import.clone(), import_marker_path(&other, "doc.md"), "unrelated".to_string()];
    let cleared = sweep_stale_stem_files("sake", &stem, StemSweep::FreshCreate, None, &found, &listing);
    for path in context_files(&stem) {
        assert_eq!(cleared.contains(&path), path != meta_path(&stem), "all but the sidecar, which is overwritten: {path}");
    }
    assert!(cleared.contains(&deleted_marker_path(&stem)));
    assert!(cleared.contains(&renaming_marker_path(&stem)));
    assert!(cleared.contains(&marker), "a marker naming it as destination goes");
    assert!(cleared.contains(&import));
    assert!(!cleared.contains(&renaming_marker_path("x")));
    assert!(!cleared.contains(&import_marker_path(&other, "doc.md")));

    // A rename's own marker, which names the destination, stays.
    let cleared = sweep_stale_stem_files("sake", &stem, StemSweep::RenameDestination, Some(marker.as_str()), &found, &listing);
    assert!(!cleared.contains(&marker));
}

#[test]
fn a_marker_that_cannot_be_removed_fails_the_stem_sweep() {
    let outcomes = vec![Err(missing()), Ok(()), Err(fault("is a directory")), Ok(())];
    assert_eq!(sweep_outcome(&outcomes).err().unwrap().message, "is a directory");
    assert!(sweep_outcome(&vec![Err(missing()), Ok(())]).is_ok(), "what is not there is cleared");
}

#[test]
fn sweep_stale_stem_files_reports_a_real_removal_failure_on_a_destination_targeting_marker() {
    let stem = file_stem("sake");
    let marker = renaming_marker_path(&file_stem("beer"));
    let found = vec![(marker.clone(), RenameMarker { from: "beer".to_string(), to: "sake".to_string() })];
    let paths = sweep_stale_stem_files("sake", &stem, StemSweep::FreshCreate, None, &found, &Vec::new());
    let outcomes: Vec<Result<(), IoFault>> =
        paths.iter().map(|path| if *path == marker { Err(fault("held")) } else { Err(missing()) }).collect();
    assert_eq!(sweep_outcome(&outcomes).err().unwrap().message, "held");
    assert_eq!(
        paths.iter().position(|path| *path == marker),
        Some(11),
        "the marker comes behind the eleven paths that are always checked"
    );
}

#[test]
fn a_delete_that_cannot_clear_its_import_marker_reports_it() {
    let stem = file_stem("sake");
    let import = import_marker_path(&stem, "doc.md");
    let paths = deletion_files("sake", &stem, &Vec::new(), &vec![import.clone()]);
    assert!(paths.contains(&import));
    let outcomes: Vec<Result<(), IoFault>> =
        paths.iter().map(|path| if *path == import { Err(fault("held")) } else { Ok(()) }).collect();
    assert_eq!(deletion_outcome(&outcomes).err().unwrap().message, "held");
    assert!(counts_as_fault(&Err(fault("held"))));
    assert!(!counts_as_fault(&Err(missing())));
}

#[test]
fn a_delete_that_cannot_clear_its_own_rename_marker_reports_it() {
    let stem = file_stem("sake");
    let marker = renaming_marker_path(&stem);
    let paths = deletion_files("sake", &stem, &Vec::new(), &Vec::new());
    assert!(paths.contains(&marker));
    let outcomes: Vec<Result<(), IoFault>> =
        paths.iter().map(|path| if *path == marker { Err(fault("held")) } else { Err(missing()) }).collect();
    assert_eq!(deletion_outcome(&outcomes).err().unwrap().message, "held");
}

#[test]
fn a_delete_that_cannot_clear_a_rename_marker_naming_it_as_destination_reports_it() {
    let stem = file_stem("sake");
    let marker = renaming_marker_path(&file_stem("beer"));
    let found = vec![(marker.clone(), RenameMarker { from: "beer".to_string(), to: "sake".to_string() })];
    let paths = deletion_files("sake", &stem, &found, &Vec::new());
    assert!(paths.contains(&marker));
    let outcomes: Vec<Result<(), IoFault>> =
        paths.iter().map(|path| if *path == marker { Err(fault("held")) } else { Ok(()) }).collect();
    assert_eq!(deletion_outcome(&outcomes).err().unwrap().message, "held");
}
