//! Paths, normalizing and guard keys.

use disktree::guards::{guard_key, guard_key_for, normalize, within};
use disktree::order::bytes_before;
use disktree::path::{Component, PathBuf, Prefix};
use disktree::platform::Platform;

fn path(text: &str) -> PathBuf {
    PathBuf::of(text)
}

fn text(path: &PathBuf) -> String {
    path.display(Platform::Linux)
}

#[test]
fn normalize_resolves_dots_without_the_filesystem() {
    let normal = |path: &str| normalize(Platform::Linux, &PathBuf::of(path));
    assert_eq!(normal("/home/tobi/./src/../src/"), path("/home/tobi/src"));
    assert_eq!(normal("a/../b"), path("b"));
    assert_eq!(normal("/.."), path("/"));
    assert_eq!(normal("../x"), path("../x"));
}

#[test]
fn normalizing_spells_the_result_plainly() {
    let normal = |path: &str| text(&normalize(Platform::Linux, &PathBuf::of(path)));
    assert_eq!(normal("/home/tobi/./src/../src/"), "/home/tobi/src");
    assert_eq!(normal("//a///b"), "/a/b");
    assert_eq!(normal("./a"), "a");
    assert_eq!(normal(""), "");
    assert_eq!(normal("/../../a/.."), "/");
    let once = normalize(Platform::Linux, &path("/a/b/../../../c"));
    let twice = normalize(Platform::Linux, &once);
    assert_eq!(text(&once), text(&twice));
}

#[test]
fn every_leading_parent_stays() {
    let normal = |path: &str| text(&normalize(Platform::Linux, &PathBuf::of(path)));
    assert_eq!(normal("../../x"), "../../x");
    assert_eq!(normal("../a/../../x"), "../../x");
    assert_eq!(normal("a/../../x"), "../x");
    assert_eq!(normal("../.."), "../..");
    assert_eq!(normal("./../.././x/.."), "../..");
    assert_eq!(normal("/../../x"), "/x");
}

#[test]
fn a_windows_prefix_keeps_its_spelling() {
    let share = |server: &str, name: &str| {
        let bytes = |text: &str| text.as_bytes().to_vec();
        PathBuf {
            text: bytes(&format!("{server}/x/../y")),
            parts: vec![
                Component::Prefix(Prefix::Unc(bytes("server"), bytes(name))),
                Component::RootDir,
                Component::Normal(bytes("x")),
                Component::ParentDir,
                Component::Normal(bytes("y")),
            ],
        }
    };
    let normal = |path: &PathBuf| text(&normalize(Platform::Windows, path));
    assert_eq!(normal(&share("//server/share", "share")), r"//server/share\y");
    assert_eq!(normal(&share(r"\\server\share", "share")), r"\\server\share\y");
}

#[test]
fn a_folded_windows_path_is_read_again() {
    let on_c = |prefix: Prefix, names: &[&str]| {
        let mut parts = vec![Component::Prefix(prefix), Component::RootDir];
        for name in names {
            parts.push(Component::Normal(name.as_bytes().to_vec()));
        }
        PathBuf::build(Platform::Windows, parts)
    };
    // In a verbatim path a slash is part of a name; in the folded one it
    // separates two.
    let odd = on_c(Prefix::VerbatimDisk(b'C'), &["a/b"]);
    assert_eq!(text(&odd), r"\\?\C:\a/b");
    let base = on_c(Prefix::Disk(b'C'), &["a"]);
    assert!(within(Platform::Windows, &odd, &base));
    assert!(within(Platform::Windows, &odd, &on_c(Prefix::Disk(b'c'), &["A", "B"])));
    assert!(!within(Platform::Windows, &base, &odd));
}

#[test]
fn components_follow_from_the_spelling() {
    let parts = path("./a/./b/..//c/").parts;
    assert_eq!(parts.len(), 5);
    assert!(matches!(parts[0], Component::CurDir));
    assert!(matches!(&parts[1], Component::Normal(name) if name == b"a"));
    assert!(matches!(&parts[2], Component::Normal(name) if name == b"b"));
    assert!(matches!(parts[3], Component::ParentDir));
    assert!(matches!(&parts[4], Component::Normal(name) if name == b"c"));
    assert!(path("").parts.is_empty());
}

#[test]
fn paths_are_equal_by_components() {
    assert_eq!(path("/a//b/./c/"), path("/a/b/c"));
    assert_ne!(path("/a/b"), path("a/b"));
    assert_ne!(path("/a/b"), path("/a/bc"));
}

#[test]
fn containment_is_by_whole_components() {
    assert!(path("/a/b/c").starts_with(&path("/a/b")));
    assert!(path("/a/b").starts_with(&path("/a/b")));
    assert!(!path("/a/bc").starts_with(&path("/a/b")));
    assert!(!path("/a").starts_with(&path("/a/b")));
    let rest = path("/a/b/c").strip_prefix(&path("/a")).expect("below");
    assert_eq!(rest.len(), 2);
    assert!(path("/a").strip_prefix(&path("/b")).is_none());
}

#[test]
fn parents_names_and_joins() {
    assert_eq!(path("/a/b").parent(Platform::Linux), Some(path("/a")));
    assert!(path("/").parent(Platform::Linux).is_none());
    assert_eq!(path("/a/b").file_name().map(|name| name.as_slice()), Some(b"b".as_slice()));
    assert!(path("/a/..").file_name().is_none());
    assert_eq!(text(&path("/a/").join_name(Platform::Linux, b"b")), "/a/b");
    assert_eq!(text(&path("/a").join_name(Platform::Linux, b"b")), "/a/b");
    assert_eq!(text(&path("/").join_name(Platform::Linux, b"b")), "/b");
}

#[test]
fn an_absolute_path_is_joined_as_itself() {
    let joined = |base: &str, rest: &str| {
        path(base).join(Platform::Linux, &path(rest).parts)
    };
    assert_eq!(text(&joined("/a", "/b/c")), "/b/c");
    assert_eq!(joined("/a", "/b/c"), path("/b/c"));
    assert_eq!(joined("/a", "/"), path("/"));
    assert_eq!(joined("", "/b"), path("/b"));
    assert_eq!(joined("/a", "b/../c"), path("/a/b/../c"));
    assert_eq!(joined("/a", "./b"), path("/a/b"), "a dot only counts in front");
    assert_eq!(joined("", "./b"), path("./b"));
}

#[test]
fn a_path_made_of_names_has_the_components_of_its_spelling() {
    let bases = ["", "/", "a", "/a", "/a/", "a//", "./a", "../..", "/a/./b/.."];
    for base in bases {
        let base = path(base);
        let joined = base.join_name(Platform::Linux, b"x.y");
        assert_eq!(joined, path(&text(&joined)), "{base:?}");
        let deeper = base.join(
            Platform::Linux,
            &vec![
                Component::Normal(b"one".to_vec()),
                Component::Normal(b"two".to_vec()),
            ],
        );
        assert_eq!(deeper, path(&text(&deeper)), "{base:?}");
        if let Some(parent) = base.parent(Platform::Linux) {
            assert_eq!(parent, path(&text(&parent)), "{base:?}");
        }
        let normal = normalize(Platform::Linux, &base);
        assert_eq!(normal, path(&text(&normal)), "{base:?}");
    }
}

#[test]
fn a_directory_comes_before_what_is_inside_it() {
    assert!(path("/a").before(&path("/a/b")));
    assert!(!path("/a/b").before(&path("/a")));
    assert!(!path("/a").before(&path("/a")));
    // Component by component: `a` ends before `a-b` goes on.
    assert!(path("/a/z").before(&path("/a-b")));
    assert!(bytes_before(b"ab", b"abc"));
    assert!(!bytes_before(b"b", b"abc"));
}

#[test]
fn macos_guard_keys_fold_the_data_volume_and_case() {
    let key = |path: &str| guard_key_for(&PathBuf::of(path), true);
    assert_eq!(
        key("/System/Volumes/Data/Users/Tobi/src"),
        path("/users/tobi/src")
    );
    assert_eq!(key("/Library/./Caches"), path("/library/caches"));
    assert_eq!(
        key("/System/Volumes/Data"),
        path("/system/volumes/data"),
        "the Data volume itself stays under /System"
    );
    assert_eq!(
        guard_key_for(&path("/Library/X"), false),
        path("/Library/X"),
        "Linux paths are compared as spelled"
    );
}

#[test]
fn every_spelling_of_the_data_volume_has_one_key() {
    let key = |path: &str| guard_key_for(&PathBuf::of(path), true);
    for data in [
        "/System/Volumes/Data",
        "/system/volumes/data",
        "/SYSTEM/Volumes/DATA",
        "/System/./Volumes//data/System/Volumes/Data",
    ] {
        assert_eq!(
            key(&format!("{data}/Users/tobi")),
            path("/users/tobi"),
            "{data}"
        );
    }
    assert_eq!(key("/system/VOLUMES/data"), path("/system/volumes/data"));
    assert!(within(
        Platform::MacOs,
        &path("/system/volumes/data/Users/tobi/x"),
        &path("/Users/tobi")
    ));
}

#[test]
fn keys_fold_case_beyond_ascii_and_show_what_is_not_text() {
    let key = guard_key(Platform::MacOs, &path("/Users/ОЛЕГ"));
    assert_eq!(key, path("/users/олег"));
    let odd = PathBuf::unix(b"/A/\xff".to_vec());
    let key = guard_key(Platform::MacOs, &odd);
    assert_eq!(key, path("/a/\u{fffd}"));
    assert_eq!(guard_key(Platform::Linux, &odd), odd);
}

#[test]
fn within_is_judged_by_keys() {
    assert!(within(Platform::MacOs, &path("/library/x"), &path("/Library")));
    assert!(!within(Platform::Linux, &path("/library/x"), &path("/Library")));
    assert!(within(Platform::Linux, &path("/a/./b"), &path("/a/c/..")));
}

#[test]
fn windows_paths_are_spelled_from_their_components() {
    let drive = PathBuf::build(
        Platform::Windows,
        vec![Component::Prefix(Prefix::Disk(b'C')), Component::RootDir],
    );
    assert_eq!(text(&drive), r"C:\");
    assert_eq!(text(&drive.join_name(Platform::Windows, b"Users")), r"C:\Users");
    let share = PathBuf::build(
        Platform::Windows,
        vec![
            Component::Prefix(Prefix::VerbatimUnc(b"server".to_vec(), b"share".to_vec())),
            Component::RootDir,
            Component::Normal(b"x".to_vec()),
        ],
    );
    assert_eq!(text(&share), r"\\?\UNC\server\share\x");
    let key = guard_key(Platform::Windows, &share);
    assert_eq!(text(&key), r"\\server\share\x");
}
