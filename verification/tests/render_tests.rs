use file_tree::builder::{BuildStep, FsObservation, TreeBuilder};
use file_tree::render::extension_of;
use file_tree::FileTree;

fn file(size: u64, signature: &str) -> FsObservation {
    FsObservation::File { size, signature: signature.to_string() }
}

fn dir(children: &[&str]) -> FsObservation {
    FsObservation::Directory { children: children.iter().map(|c| c.to_string()).collect() }
}

fn drive(root: &str, observations: Vec<FsObservation>) -> FileTree {
    let mut b = TreeBuilder::new(root.to_string());
    for o in observations {
        match b.step(o) {
            BuildStep::Continue(nb) => b = nb,
            BuildStep::Done(t) => return t,
            BuildStep::Failed(e) => panic!("build failed: {:?}", e),
        }
    }
    panic!("the walk did not finish");
}

/// `R` holds a 10-byte picture, a 20-byte note, and a subdirectory with a
/// 30-byte picture.
fn picture_tree() -> FileTree {
    drive(
        "R",
        vec![
            dir(&["R/a.jpg", "R/b.txt", "R/sub"]),
            file(10, "s1"),
            file(20, "s2"),
            dir(&["R/sub/c.jpg"]),
            file(30, "s3"),
        ],
    )
}

#[test]
fn show_renders_each_node_in_natural_order() {
    let t = picture_tree();
    assert_eq!(
        t.show(),
        vec![
            "60 B  /R".to_string(),
            "      10 B  /R/a.jpg".to_string(),
            "      20 B  /R/b.txt".to_string(),
            "      30 B  /R/sub".to_string(),
            "            30 B  /R/sub/c.jpg".to_string(),
        ],
    );
}

#[test]
fn filter_keeps_only_matching_files_but_every_directory() {
    let t = picture_tree();
    let lines = t.show_filtered("jpg", false);
    assert_eq!(
        lines,
        vec![
            "60 B  /R".to_string(),
            "      10 B  /R/a.jpg".to_string(),
            "      30 B  /R/sub".to_string(),
            "            30 B  /R/sub/c.jpg".to_string(),
        ],
    );
}

#[test]
fn filter_with_no_match_still_visits_directories() {
    let t = picture_tree();
    let lines = t.show_filtered("png", false);
    assert_eq!(
        lines,
        vec!["60 B  /R".to_string(), "      30 B  /R/sub".to_string()],
    );
}

#[test]
fn lexicographic_sort_orders_children_by_path() {
    let t = drive(
        "R",
        vec![
            dir(&["R/c", "R/a", "R/b"]),
            file(1, "s1"),
            file(2, "s2"),
            file(3, "s3"),
        ],
    );
    assert_eq!(
        t.show_lexicographic(),
        vec![
            "6 B  /R".to_string(),
            "      2 B  /R/a".to_string(),
            "      3 B  /R/b".to_string(),
            "      1 B  /R/c".to_string(),
        ],
    );
}

#[test]
fn size_descending_orders_children_by_aggregate_size() {
    let t = drive(
        "R",
        vec![
            dir(&["R/small", "R/big", "R/mid"]),
            file(1, "s1"),
            file(30, "s2"),
            file(20, "s3"),
        ],
    );
    assert_eq!(
        t.show_size_descending(),
        vec![
            "51 B  /R".to_string(),
            "      30 B  /R/big".to_string(),
            "      20 B  /R/mid".to_string(),
            "      1 B  /R/small".to_string(),
        ],
    );
}

#[test]
fn filtered_lexicographic_subtree_rendering() {
    let t = picture_tree();
    let lines = t.show_lexicographic_filtered_recursive(&"R/sub".to_string(), "jpg", 0);
    assert_eq!(
        lines,
        vec!["30 B  /R/sub".to_string(), "      30 B  /R/sub/c.jpg".to_string()],
    );
}

#[test]
fn subtree_rendering_respects_the_given_depth() {
    let t = picture_tree();
    let lines = t.show_lexicographic_filtered_recursive(&"R/sub".to_string(), "jpg", 1);
    assert_eq!(
        lines,
        vec![
            "      30 B  /R/sub".to_string(),
            "            30 B  /R/sub/c.jpg".to_string(),
        ],
    );
}

#[test]
fn extension_follows_the_file_name() {
    assert_eq!(extension_of(&"a/b.jpg".to_string()), Some("jpg".to_string()));
    assert_eq!(extension_of(&"a/b.tar.gz".to_string()), Some("gz".to_string()));
    assert_eq!(extension_of(&"a/noext".to_string()), None);
    assert_eq!(extension_of(&"a/.hidden".to_string()), None);
    assert_eq!(extension_of(&"a/.hidden.txt".to_string()), Some("txt".to_string()));
    assert_eq!(extension_of(&"dotted.dir/plain".to_string()), None);
}
