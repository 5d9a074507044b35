//! File names, and the renames that a restart finds unfinished.
use registry::paths::{
    file_stem, fnv64, group_path, image_path, import_marker_path, import_marker_paths, name_from_stem, passages_path,
    passages_wal_path, rename_markers_targeting, renaming_marker_path, resume_rename_markers, resumed_rename,
    retire_rename_marker, schema_path, wal_path, RenameMarker, ResumedRename,
};
use std::collections::BTreeMap;

fn marker(from: &str, to: &str) -> RenameMarker {
    RenameMarker { from: from.to_string(), to: to.to_string() }
}

/// The markers in a directory, by file.
struct Markers {
    files: BTreeMap<String, RenameMarker>,
}

impl Markers {
    /// Markers at the given stems.
    fn of(markers: &[(&str, &str, &str)]) -> Markers {
        let files =
            markers.iter().map(|(at, from, to)| (renaming_marker_path(&file_stem(at)), marker(from, to))).collect();
        Markers { files }
    }

    fn stands(&self, at: &str) -> bool {
        self.files.contains_key(&renaming_marker_path(&file_stem(at)))
    }

    /// Resumes what can be, each move coming out as told, records the moves
    /// that were tried, and retires the markers that have done their job.
    fn resume(&mut self, moved: bool, landed: bool) -> (Vec<ResumedRename>, Vec<(String, String)>) {
        let found = self.files.values().map(|m| marker(&m.from, &m.to)).collect();
        let mut resumed = Vec::new();
        let mut tried = Vec::new();
        for marker in resume_rename_markers(&found) {
            tried.push((file_stem(&marker.from), file_stem(&marker.to)));
            let run = resumed_rename(marker, moved, landed);
            if retire_rename_marker(run.complete, run.landed, true) {
                self.files.remove(&renaming_marker_path(&file_stem(&run.from)));
            }
            resumed.push(run);
        }
        (resumed, tried)
    }
}

#[test]
fn a_failed_resume_keeps_the_marker_and_defers_membership() {
    let mut markers = Markers::of(&[("sake", "sake", "shochu")]);
    let (resumed, _) = markers.resume(false, false);
    assert_eq!(resumed.len(), 1);
    assert_eq!(resumed[0].from, "sake");
    assert_eq!(resumed[0].to, "shochu");
    assert!(!resumed[0].complete, "a failed move is not complete");
    assert!(!resumed[0].landed, "no pivot at the destination");
    assert!(markers.stands("sake"), "the marker must survive a failed resume so the next boot retries");

    let (resumed, _) = markers.resume(false, true);
    assert!(resumed[0].landed, "the pivot is at the destination");
    assert!(!resumed[0].complete, "a stuck straggler is not complete");
    assert!(markers.stands("sake"), "nor is the straggler given up");

    let (resumed, _) = markers.resume(true, true);
    assert!(resumed[0].landed && resumed[0].complete);
    assert!(!markers.stands("sake"), "everything moved");
}

#[test]
fn a_chained_rename_marker_pair_is_refused_not_resumed() {
    let mut markers = Markers::of(&[("a", "a", "b"), ("b", "b", "c")]);
    let (resumed, moved) = markers.resume(true, true);
    assert!(resumed.is_empty(), "a chained pair must resume neither marker");
    assert!(moved.is_empty(), "neither marker's move may even be attempted");
    assert!(markers.stands("a"), "a→b's marker must survive for a human to resolve");
    assert!(markers.stands("b"), "b→c's marker must survive for a human to resolve");
}

#[test]
fn a_cyclic_rename_marker_pair_is_refused() {
    let mut markers = Markers::of(&[("a", "a", "b"), ("b", "b", "a")]);
    let (resumed, _) = markers.resume(true, true);
    assert!(resumed.is_empty(), "a cyclic pair must resume neither marker");
    assert!(markers.stands("a"));
    assert!(markers.stands("b"));
}

#[test]
fn markers_sharing_a_from_are_both_refused() {
    let mut markers = Markers::of(&[("a", "a", "b"), ("z", "a", "c")]);
    let (resumed, moved) = markers.resume(true, true);
    assert!(resumed.is_empty(), "neither marker may resume");
    assert!(moved.is_empty(), "neither marker's move may even be attempted");
    assert!(markers.stands("a"));
    assert!(markers.stands("z"));
}

#[test]
fn markers_sharing_a_to_are_both_refused() {
    let mut markers = Markers::of(&[("a", "a", "c"), ("b", "b", "c")]);
    let (resumed, moved) = markers.resume(true, true);
    assert!(resumed.is_empty(), "neither marker may resume");
    assert!(moved.is_empty(), "neither marker's move may even be attempted");
    assert!(markers.stands("a"));
    assert!(markers.stands("b"));
}

#[test]
fn unrelated_markers_resume_in_a_deterministic_order() {
    let (resumed, moved) = Markers::of(&[("x", "x", "y"), ("p", "p", "q")]).resume(true, true);
    assert_eq!(resumed.len(), 2, "both unrelated markers must resume");
    assert!(resumed.iter().all(|rename| rename.landed && rename.complete));
    assert_eq!(moved, vec![("p".to_string(), "q".to_string()), ("x".to_string(), "y".to_string())]);
}

#[test]
fn a_refused_pair_leaves_the_others_alone() {
    let resumed = resume_rename_markers(&vec![marker("a", "b"), marker("m", "n"), marker("b", "c")]);
    assert_eq!(resumed.len(), 1);
    assert_eq!(resumed[0].from, "m");
}

#[test]
fn a_name_comes_back_from_its_stem() {
    for name in ["sake", "酒 蔵/..", "A.b", "%41", "Ω-1_2", ""] {
        let stem = file_stem(name);
        assert_eq!(name_from_stem(&stem).as_deref(), Some(name), "{stem}");
        assert!(!stem.contains('/') && !stem.contains(' '), "{stem}");
    }
    assert_eq!(file_stem("sake"), "sake");
    assert_ne!(file_stem("a/b"), file_stem("a%2Fb"));
    assert!(name_from_stem("%zz").is_none());
    assert!(name_from_stem("%FF").is_none(), "not the bytes of any text");
}

#[test]
fn each_file_has_its_own_name() {
    assert_eq!(image_path("sake"), "sake.ctx");
    assert_eq!(wal_path("sake"), "sake.wal.jsonl");
    assert_eq!(passages_path("sake"), "sake.passages.bin");
    assert_eq!(passages_wal_path("sake"), "sake.passages.wal.jsonl");
    assert_eq!(schema_path("sake"), "sake.schema.json");
    assert_eq!(renaming_marker_path("sake"), "sake.renaming");
    assert_eq!(group_path("kura"), "kura.group");
}

#[test]
fn an_import_marker_is_found_at_its_own_stem_only() {
    let mine = import_marker_path("sake", "doc.md");
    let theirs = import_marker_path("beer", "doc.md");
    assert_ne!(mine, import_marker_path("sake", "other.md"));
    assert_eq!(import_marker_paths("sake", &vec![theirs, mine.clone(), "sake.ctx".to_string()]), vec![mine]);
}

#[test]
fn the_hash_of_nothing_is_its_offset() {
    assert_eq!(fnv64(b""), 0xcbf2_9ce4_8422_2325);
    assert_eq!(fnv64(b"a"), 0xaf63_dc4c_8601_ec8c);
    assert_eq!(fnv64(b"foobar"), 0x8594_4171_f739_67e8);
    assert_ne!(fnv64(b"a"), fnv64(b"b"));
}

#[test]
fn markers_are_found_by_their_destination() {
    let found = vec![("a.renaming".to_string(), marker("a", "b")), ("c.renaming".to_string(), marker("c", "d"))];
    assert_eq!(rename_markers_targeting(&found, "b"), vec!["a.renaming".to_string()]);
    assert!(rename_markers_targeting(&found, "a").is_empty());
}
