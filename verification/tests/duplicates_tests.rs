use file_tree::builder::{BuildStep, FsObservation, TreeBuilder};
use file_tree::signature::ContentHasher;
use file_tree::FileTree;

fn sig_of(content: &[u8]) -> String {
    let mut h = ContentHasher::new();
    h.update(content);
    h.finish_hex()
}

fn file(size: u64, content: &[u8]) -> FsObservation {
    FsObservation::File { size, signature: sig_of(content) }
}

fn dir(children: &[&str]) -> FsObservation {
    FsObservation::Directory { children: children.iter().map(|c| c.to_string()).collect() }
}

fn drive(root: &str, observations: Vec<FsObservation>) -> FileTree {
    let mut b = TreeBuilder::new(root.to_string());
    for o in observations {
        match b.step(o) {
            BuildStep::Continue(nb) => b = nb,
            BuildStep::Done(t) => return t,
            BuildStep::Failed(e) => panic!("build failed: {:?}", e),
        }
    }
    panic!("the walk did not finish");
}

/// Two files with identical 3-byte content in different directories, plus
/// one file with different content.
fn duplicates_tree() -> FileTree {
    drive(
        "R",
        vec![
            dir(&["R/one", "R/sub", "R/other"]),
            file(3, b"abc"),
            dir(&["R/sub/two"]),
            file(3, b"abc"),
            file(3, b"xyz"),
        ],
    )
}

#[test]
fn duplicate_scenario_finds_one_group() {
    let t = duplicates_tree();
    let groups = t.find_duplicates();
    assert_eq!(groups.groups.len(), 1);
    let (signature, paths) = &groups.groups[0];
    assert_eq!(signature, &sig_of(b"abc"));
    assert_eq!(paths.len(), 2);
    assert!(paths.contains(&"R/one".to_string()));
    assert!(paths.contains(&"R/sub/two".to_string()));
}

#[test]
fn unique_content_appears_in_no_group() {
    let t = duplicates_tree();
    let groups = t.find_duplicates();
    for (_, paths) in &groups.groups {
        assert!(!paths.contains(&"R/other".to_string()));
        assert!(paths.len() >= 2);
    }
}

#[test]
fn three_way_duplicates_form_one_group() {
    let t = drive(
        "R",
        vec![
            dir(&["R/a", "R/b", "R/c", "R/d"]),
            file(5, b"hello"),
            file(5, b"hello"),
            file(5, b"hello"),
            file(5, b"world"),
        ],
    );
    let groups = t.find_duplicates();
    assert_eq!(groups.groups.len(), 1);
    assert_eq!(groups.groups[0].1.len(), 3);
}

#[test]
fn no_duplicates_no_groups() {
    let t = drive(
        "R",
        vec![dir(&["R/a", "R/b"]), file(1, b"1"), file(1, b"2")],
    );
    assert!(t.find_duplicates().groups.is_empty());
}

#[test]
fn streaming_chunks_give_the_same_signature() {
    // The signature depends only on the concatenation of the fed chunks.
    let mut split = ContentHasher::new();
    split.update(b"a");
    split.update(b"bc");
    let whole = sig_of(b"abc");
    assert_eq!(split.finish_hex(), whole);
}

#[test]
fn signature_is_the_hex_of_the_digest() {
    // The well-known MD5 digest of "abc", hex-encoded.
    assert_eq!(sig_of(b"abc"), "900150983cd24fb0d6963f7d28e17f72");
    assert_eq!(sig_of(b""), "d41d8cd98f00b204e9800998ecf8427e");
}

#[test]
fn different_content_gives_different_signatures() {
    assert_ne!(sig_of(b"abc"), sig_of(b"xyz"));
}
