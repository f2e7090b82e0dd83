//! Marks, and the tree they point into.

use disktree::marks::{display_path, find, is_hidden, Marks};
use disktree::path::PathBuf;
use disktree::platform::Platform;
use disktree::removal::Target;
use disktree::tree::{aggregate, Metric, Node, NodeKind};

fn path(text: &str) -> PathBuf {
    PathBuf::of(text)
}

fn file(name: &str, bytes: u64) -> Node {
    Node::entry(name, NodeKind::File, bytes)
}

fn tree() -> Node {
    let mut root = Node::directory("home");
    let mut cache = Node::directory(".cache");
    cache.children.push(file("blob.bin", 900));
    root.children.push(cache);
    root.children.push(file("notes.bin", 100));
    aggregate(&mut root, Metric::Bytes);
    root
}

fn target(text: &str, bytes: u64) -> Target {
    Target {
        path: path(text),
        bytes,
        is_dir: false,
        hidden: false,
    }
}

#[test]
fn toggling_marks_and_unmarks() {
    let mut marks = Marks::default();
    assert!(marks.toggle(target("/home/tobi/a", 1)));
    assert!(marks.contains(&path("/home/tobi/a")));
    assert_eq!(marks.len(), 1);
    assert!(!marks.toggle(target("/home/tobi/a", 1)));
    assert!(marks.is_empty());
}

#[test]
fn marking_the_same_path_twice_keeps_one_entry() {
    let mut marks = Marks::default();
    marks.toggle(target("/home/tobi/a", 1));
    marks.toggle(target("/home/tobi/a", 1));
    marks.toggle(target("/home/tobi/a", 1));
    assert_eq!(marks.len(), 1);
}

#[test]
fn refresh_re_reads_sizes_from_a_new_tree() {
    let root_path = path("/home/tobi");
    let root = tree();
    let mut marks = Marks::default();
    marks.toggle(target("/home/tobi/.cache", 0));
    marks.toggle(target("/home/tobi/gone", 500));

    marks.refresh(Platform::Linux, &root_path, &root, Metric::Bytes, &[]);
    assert_eq!(marks.items()[0].bytes, 900);
    assert!(marks.items()[0].is_dir);
    assert!(marks.items()[0].hidden, "the .cache mark is hidden");
    assert_eq!(marks.items()[1].bytes, 0, "a path that no longer exists");
}

#[test]
fn find_matches_whole_components_only() {
    let root = tree();
    let home = path("/home/tobi");
    assert!(find(Platform::Linux, &home, &root, &path("/home/tobi/.cache")).is_some());
    assert!(find(Platform::Linux, &home, &root, &path("/home/tobi/.cache/blob.bin")).is_some());
    assert!(find(Platform::Linux, &home, &root, &path("/home/tobi/cache")).is_none());
    assert!(find(Platform::Linux, &path("/elsewhere"), &root, &path("/home/tobi/notes.bin")).is_none());
}

#[test]
fn find_gives_the_node_at_the_path() {
    let root = tree();
    let home = path("/home/tobi");
    let size = |text: &str| find(Platform::Linux, &home, &root, &path(text)).map(|node| node.value(Metric::Bytes));
    assert_eq!(size("/home/tobi"), Some(1000));
    assert_eq!(size("/home/tobi/.cache"), Some(900));
    assert_eq!(size("/home/tobi/notes.bin"), Some(100));
    assert_eq!(size("/home/tobi/notes.bin/x"), None);
}

#[test]
fn display_path_shortens_the_home_prefix() {
    for (platform, separator) in [(Platform::Linux, '/'), (Platform::Windows, '\\')] {
        let home = path("/home/tobi");
        let shown = |path: &PathBuf, home: Option<&PathBuf>| display_path(platform, path, home);
        let npm = home
            .join_name(platform, b".cache")
            .join_name(platform, b"npm");
        assert_eq!(
            shown(&npm, Some(&home)),
            format!("~{separator}.cache{separator}npm")
        );
        assert_eq!(shown(&home, Some(&home)), "~");
        assert_eq!(shown(&path("/var/log"), Some(&home)), "/var/log");
        assert_eq!(shown(&path("/var/log"), None), "/var/log");
    }
}

#[test]
fn marks_go_by_path_and_stay_in_order() {
    let mut marks = Marks::new();
    for name in ["/x/a", "/x/b", "/x/c"] {
        assert!(marks.toggle(target(name, 1)));
    }
    assert!(marks.contains(&path("/x//b/")), "by components");
    assert!(!marks.contains(&path("/x")));
    marks.remove(&path("/x/./b"));
    marks.remove(&path("/x/none"));
    let left: Vec<String> = marks.items().iter().map(|item| item.path.display(Platform::Linux)).collect();
    assert_eq!(left, ["/x/a", "/x/c"]);
    assert!(!marks.contains(&path("/x/b")));
    marks.clear();
    assert!(marks.is_empty() && !marks.contains(&path("/x/a")));
    assert!(marks.toggle(target("/x/a", 1)), "the index was cleared too");
}

#[test]
fn toggling_twice_changes_nothing() {
    let mut marks = Marks::new();
    marks.toggle(target("/x/a", 1));
    marks.toggle(target("/x/b", 2));
    marks.toggle(target("/x/c", 3));
    marks.toggle(target("/x/c", 3));
    let sizes: Vec<u64> = marks.items().iter().map(|item| item.bytes).collect();
    assert_eq!(sizes, [1, 2]);
}

#[test]
fn no_path_is_marked_twice_whatever_is_toggled() {
    let mut marks = Marks::new();
    let turns = ["/x/a", "/x/b", "/x/./a", "/x/c", "/x/b/", "/x//a", "/x/b"];
    let mut expected: Vec<PathBuf> = Vec::new();
    for (turn, name) in turns.iter().enumerate() {
        let was = marks.contains(&path(name));
        let now = marks.toggle(target(name, turn as u64));
        assert_eq!(now, !was);
        assert_eq!(marks.contains(&path(name)), now);
        expected.retain(|item| item != &path(name));
        if now {
            expected.push(path(name));
        }
        let items: Vec<PathBuf> = marks.items().iter().map(|item| item.path.clone()).collect();
        assert_eq!(items, expected, "turn {turn}");
    }
    assert_eq!(expected, [path("/x/c"), path("/x/a"), path("/x/b")]);
}

#[test]
fn paths_that_only_look_alike_are_marked_apart() {
    let mut marks = Marks::new();
    marks.toggle(target("/a/b", 1));
    for other in ["a/b", "/ab", "/a", "/a/b/c", "/a/../b"] {
        assert!(!marks.contains(&path(other)), "{other}");
    }
}

#[test]
fn hidden_by_name_or_by_attribute() {
    assert!(is_hidden(&path("/a/.cache"), false));
    assert!(!is_hidden(&path("/a/cache"), false));
    assert!(is_hidden(&path("/a/cache"), true));
    assert!(!is_hidden(&path("/"), false));
}

#[test]
fn a_refresh_reads_the_hidden_attribute() {
    let mut marks = Marks::new();
    marks.toggle(target("/home/tobi/notes.bin", 0));
    marks.refresh(Platform::Linux, &path("/home/tobi"), &tree(), Metric::Bytes, &[true]);
    assert!(marks.items()[0].hidden);
    assert!(!marks.items()[0].is_dir);
    assert_eq!(marks.items()[0].bytes, 100);
}

#[test]
fn a_directory_counts_what_it_holds() {
    let mut root = tree();
    assert_eq!(root.value(Metric::Bytes), 1000);
    root.children.push(file("huge", u64::MAX));
    aggregate(&mut root, Metric::Bytes);
    assert_eq!(root.value(Metric::Bytes), u64::MAX, "saturating");
    assert!(root.is_dir() && !root.children[1].is_dir());
}

#[test]
fn what_is_below_home_is_shown_as_it_is_spelled() {
    let home = path("/home/tobi");
    let shown =
        |text: &str| display_path(Platform::Linux, &path(text), Some(&home));
    assert_eq!(shown("/home//tobi/./a//b/./c/"), "~/a//b/./c");
    assert_eq!(shown("/home/tobi/a/../b/."), "~/a/../b");
    assert_eq!(shown("/home/tobi//"), "~");
    assert_eq!(shown("/home/tobias"), "/home/tobias");
    assert_eq!(
        display_path(Platform::Linux, &path("/a"), Some(&path(""))),
        "~//a"
    );
}
