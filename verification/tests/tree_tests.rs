use file_tree::builder::{BuildError, BuildStep, FsObservation, TreeBuilder};
use file_tree::signature::ContentHasher;
use file_tree::{EntryNode, FileTree, Size};

fn sig_of(content: &[u8]) -> String {
    let mut h = ContentHasher::new();
    h.update(content);
    h.finish_hex()
}

fn file(size: u64, content: &[u8]) -> FsObservation {
    FsObservation::File { size, signature: sig_of(content) }
}

fn dir(children: &[&str]) -> FsObservation {
    FsObservation::Directory { children: children.iter().map(|c| c.to_string()).collect() }
}

/// Drives a build by handing the prepared observations to the builder in the
/// order it asks for paths.
fn drive(root: &str, observations: Vec<FsObservation>) -> FileTree {
    let mut b = TreeBuilder::new(root.to_string());
    for o in observations {
        match b.step(o) {
            BuildStep::Continue(nb) => b = nb,
            BuildStep::Done(t) => return t,
            BuildStep::Failed(e) => panic!("build failed: {:?}", e),
        }
    }
    panic!("the walk did not finish");
}

/// The tree of the size scenario: `R` holds `D1` with one 100-byte file and
/// `D2` with an empty subdirectory, a 50-byte file below `S2`, and a 30-byte
/// file.
fn scenario_tree() -> FileTree {
    drive(
        "R",
        vec![
            dir(&["R/D1", "R/D2"]),
            dir(&["R/D1/F1"]),
            file(100, b"a"),
            dir(&["R/D2/S1", "R/D2/S2", "R/D2/F3"]),
            dir(&[]),
            dir(&["R/D2/S2/F2"]),
            file(50, b"b"),
            file(30, b"c"),
        ],
    )
}

#[test]
fn scenario_directory_sizes() {
    let t = scenario_tree();
    assert_eq!(t.get_size(&"R/D2".to_string()), Some(Size::new(80)));
    assert_eq!(t.get_size(&"R".to_string()), Some(Size::new(180)));
    assert_eq!(t.get_size(&"R/D1".to_string()), Some(Size::new(100)));
    assert_eq!(t.get_size(&"R/D2/S1".to_string()), Some(Size::new(0)));
    assert_eq!(t.get_size(&"R/D1/F1".to_string()), Some(Size::new(100)));
}

#[test]
fn size_of_unknown_path_is_absent() {
    let t = scenario_tree();
    assert_eq!(t.get_size(&"R/Missing".to_string()), None);
}

#[test]
fn aggregation_matches_children_sum() {
    // The aggregate of every directory equals the sum over its children.
    let t = scenario_tree();
    for path in t.files() {
        assert!(t.get_size(&path).is_some());
    }
    for d in ["R", "R/D1", "R/D2", "R/D2/S1", "R/D2/S2"] {
        let key = d.to_string();
        if let Some(children) = t.get_children(&key) {
            let mut sum = Size::new(0);
            for c in children {
                sum = sum.add(t.get_size(c).expect("child size"));
            }
            assert_eq!(t.get_size(&key), Some(sum));
        }
    }
}

#[test]
fn children_are_reachable() {
    // Every path listed among a directory's children has an entry.
    let t = scenario_tree();
    for d in ["R", "R/D1", "R/D2", "R/D2/S1", "R/D2/S2"] {
        if let Some(children) = t.get_children(&d.to_string()) {
            for c in children {
                assert!(t.get_map_option(c).is_some());
            }
        }
    }
}

#[test]
fn root_and_children_are_recorded() {
    let t = scenario_tree();
    assert_eq!(t.get_root(), "R");
    let root_children = t.get_children(&"R".to_string()).expect("root children");
    assert_eq!(root_children, &vec!["R/D1".to_string(), "R/D2".to_string()]);
    let d2 = t.get_children(&"R/D2".to_string()).expect("children of D2");
    assert!(d2.contains(&"R/D2/S1".to_string()));
    assert!(d2.contains(&"R/D2/S2".to_string()));
    assert!(d2.contains(&"R/D2/F3".to_string()));
    assert!(t.get_children(&"R/D1/F1".to_string()).is_none());
    assert!(t.get_children(&"R/Missing".to_string()).is_none());
}

#[test]
fn entries_distinguish_files_and_directories() {
    let t = scenario_tree();
    match t.get_map_option(&"R/D1/F1".to_string()) {
        Some(EntryNode::File(s)) => assert_eq!(s.value(), 100),
        other => panic!("unexpected entry: {:?}", other),
    }
    match t.get_map_option(&"R/D2".to_string()) {
        Some(EntryNode::Directory(children)) => assert_eq!(children.len(), 3),
        other => panic!("unexpected entry: {:?}", other),
    }
    assert!(t.get_map_option(&"R/Missing".to_string()).is_none());
}

#[test]
fn files_lists_exactly_the_file_entries() {
    let t = scenario_tree();
    let files = t.files();
    assert_eq!(files.len(), 3);
    assert!(files.contains(&"R/D1/F1".to_string()));
    assert!(files.contains(&"R/D2/S2/F2".to_string()));
    assert!(files.contains(&"R/D2/F3".to_string()));
    assert!(!files.contains(&"R/D2".to_string()));
}

#[test]
fn single_file_tree() {
    let t = drive("just_one", vec![file(7, b"seven")]);
    assert_eq!(t.get_size(&"just_one".to_string()), Some(Size::new(7)));
    assert_eq!(t.files(), vec!["just_one".to_string()]);
}

#[test]
fn empty_directory_tree() {
    let t = drive("empty", vec![dir(&[])]);
    assert_eq!(t.get_size(&"empty".to_string()), Some(Size::new(0)));
    assert!(t.files().is_empty());
    assert!(t.find_duplicates().groups.is_empty());
}

#[test]
fn build_fails_with_path_not_found() {
    let b = TreeBuilder::new("nowhere".to_string());
    match b.step(FsObservation::Failure(BuildError::PathNotFound)) {
        BuildStep::Failed(e) => assert_eq!(e, BuildError::PathNotFound),
        _ => panic!("a missing root must abort the build"),
    }
}

#[test]
fn build_fails_on_each_error_kind() {
    for e in [
        BuildError::PathNotFound,
        BuildError::PermissionDenied,
        BuildError::SignatureComputationFailed,
        BuildError::Io,
    ] {
        let b = TreeBuilder::new("x".to_string());
        match b.step(FsObservation::Failure(e)) {
            BuildStep::Failed(got) => assert_eq!(got, e),
            _ => panic!("a failure observation must abort the build"),
        }
    }
}

#[test]
fn build_fails_on_unsupported_entry_kind() {
    let b = TreeBuilder::new("x".to_string());
    match b.step(FsObservation::Unsupported) {
        BuildStep::Failed(e) => assert_eq!(e, BuildError::UnsupportedEntryKind),
        _ => panic!("an unsupported entry must abort the build"),
    }
}

#[test]
fn mid_walk_failure_aborts() {
    let mut b = TreeBuilder::new("R".to_string());
    b = match b.step(dir(&["R/a", "R/b"])) {
        BuildStep::Continue(nb) => nb,
        _ => panic!("the walk should continue"),
    };
    match b.step(FsObservation::Failure(BuildError::PermissionDenied)) {
        BuildStep::Failed(e) => assert_eq!(e, BuildError::PermissionDenied),
        _ => panic!("a failure observation must abort the build"),
    }
}
