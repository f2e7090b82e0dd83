//! Judging marked paths, and the plans that follow.

use disktree::guards::{guard_key, MACOS_DATA_VOLUME};
use disktree::judge::{
    is_mount_point, linked, misread_by_win32, mounted, refuse, Facts, Home, Stat,
};
use disktree::mounts::mount_below;
use disktree::path::{Component, PathBuf, Prefix};
use disktree::platform::Platform;
use disktree::removal::{plan, Candidate, Plan, RemovalMode, Target, World};
use disktree::system::{
    system_drive, system_tree, system_tree_keys, windows_variables, SystemTree, WindowsPlaces,
};

fn path(text: &str) -> PathBuf {
    PathBuf::of(text)
}

fn target(text: &str, bytes: u64) -> Target {
    Target {
        path: path(text),
        bytes,
        is_dir: false,
        hidden: false,
    }
}

fn no_facts() -> Facts {
    Facts {
        identity: None,
        mount_point: false,
        real_parent: None,
    }
}

fn no_places() -> WindowsPlaces {
    WindowsPlaces {
        set: Vec::new(),
        drive: path("/"),
    }
}

fn trees(platform: Platform) -> Vec<SystemTree> {
    system_tree_keys(platform, &no_places())
}

fn world(platform: Platform, home: Option<&str>) -> World {
    World {
        platform,
        mounts: Ok(vec![path("/")]),
        home: home.map(|home| Home::of(platform, &path(home), None, None)),
        real_root: None,
        trees: trees(platform),
    }
}

fn candidate(target: Target) -> Candidate {
    Candidate {
        target,
        facts: no_facts(),
    }
}

fn planned(targets: &[(&str, u64)], root: &str) -> Plan {
    let candidates: Vec<Candidate> = targets
        .iter()
        .map(|(path, bytes)| candidate(target(path, *bytes)))
        .collect();
    plan(
        &world(Platform::Linux, Some("/home/tobi")),
        &candidates,
        &path(root),
    )
}

/// A refusal in a scan of `/` on `platform`.
fn refused(platform: Platform, text: &str, home: &str, mounts: &[PathBuf]) -> Option<String> {
    refuse(
        platform,
        &path(text),
        &path("/"),
        Some(&Home::of(platform, &path(home), None, None)),
        mounts,
        &trees(platform),
        &no_facts(),
    )
}

fn tree_of(text: &str, home: &str) -> Option<String> {
    let platform = Platform::Linux;
    system_tree(
        &guard_key(platform, &path(text)),
        Some(&guard_key(platform, &path(home))),
        &trees(platform),
    )
    .cloned()
}

#[test]
fn a_plan_keeps_only_the_outermost_targets() {
    let plan = planned(
        &[("/tmp/t/a/b", 5), ("/tmp/t/a", 30), ("/tmp/t/other", 0)],
        "/tmp/t",
    );
    let inner = target("/tmp/t/a/b", 5);
    let outer = target("/tmp/t/a", 30);
    let separate = target("/tmp/t/other", 0);
    assert_eq!(plan.targets.len(), 2);
    assert!(plan.targets.contains(&outer));
    assert!(plan.targets.contains(&separate));
    assert_eq!(plan.covered.len(), 1);
    assert_eq!(plan.covered[0].path, inner.path);
    assert_eq!(plan.bytes(), 30);
}

#[test]
fn the_root_and_home_are_refused() {
    let plan = planned(&[("/", 0), ("/tmp/t", 0), ("/home/tobi", 0)], "/tmp/t");
    assert!(plan.is_empty());
    assert_eq!(plan.blocked.len(), 3);
    assert!(plan
        .blocked
        .iter()
        .any(|blocked| blocked.reason.contains("home directory")));
    assert_eq!(plan.blocked[0].reason, "the filesystem root cannot be removed");
    assert_eq!(plan.blocked[1].reason, "the scanned root cannot be removed");
    assert_eq!(plan.blocked[2].reason, "the home directory cannot be removed");
}

#[test]
fn the_directories_above_home_are_refused() {
    let reason = refused(Platform::Linux, "/home", "/home/disktree-test-user", &[]);
    assert!(
        reason.is_some_and(|reason| reason.contains("home directory")),
        "the home directory is inside it"
    );
    assert_eq!(
        refused(Platform::Linux, "/home/other", "/home/disktree-test-user", &[]),
        None,
        "a sibling of home is not"
    );
}

#[test]
fn paths_outside_the_root_are_refused() {
    let plan = planned(&[("/etc/passwd", 1)], "/tmp/t");
    assert!(plan.is_empty());
    assert_eq!(plan.blocked[0].reason, "outside the scanned root");
}

#[test]
fn sibling_prefixes_are_not_treated_as_containment() {
    let plan = planned(&[("/tmp/t/a", 1), ("/tmp/t/a-real", 1)], "/tmp/t");
    assert_eq!(plan.targets.len(), 2, "a-real is not inside a");
    assert!(plan.covered.is_empty());
}

#[test]
fn mount_points_are_recognized() {
    let dir = |device: u64| {
        Some(Stat {
            is_dir: true,
            device,
        })
    };
    assert!(!is_mount_point(&path("/tmp/t"), dir(1), dir(1)));
    assert!(is_mount_point(&path("/proc"), dir(2), dir(1)));
    assert!(is_mount_point(&path("/"), dir(1), None), "the top is one");
    assert!(is_mount_point(&path("/a/b"), dir(1), None), "not worth the risk");
    let file = Some(Stat {
        is_dir: false,
        device: 2,
    });
    assert!(!is_mount_point(&path("/a"), file, dir(1)));
    assert!(!is_mount_point(&path("/a"), None, dir(1)));
}

#[test]
fn a_directory_holding_the_home_directory_is_refused() {
    let reason =
        refused(Platform::Linux, "/Users", "/Users/tobi", &[]).expect("refused");
    assert!(reason.contains("home directory"), "{reason}");
    assert!(
        refused(Platform::Linux, "/Users/tobi/src", "/Users/tobi", &[]).is_none(),
        "inside home is the user's"
    );
}

#[test]
fn a_directory_holding_a_system_tree_is_refused() {
    for (path, inside) in [("/opt", "/opt/homebrew"), ("/var", "/var/lib")] {
        let reason = refused(Platform::Linux, path, "/Users/tobi", &[]).expect("refused");
        assert!(reason.contains(inside), "{path}: {reason}");
    }
    assert!(
        refused(Platform::Linux, "/opt/local", "/Users/tobi", &[]).is_none(),
        "a sibling of a system tree is not its parent"
    );
}

#[test]
fn a_target_with_a_mount_inside_is_refused() {
    let key = |text: &str| guard_key(Platform::Linux, &path(text));
    let mounts = vec![key("/tmp/t/a/b"), key("/tmp/t/other")];
    assert_eq!(
        mount_below(&key("/tmp/t/a"), &mounts),
        Some(&key("/tmp/t/a/b"))
    );
    assert_eq!(mount_below(&key("/tmp/t/a/b"), &mounts), None, "itself");
    let refused = |text: &str| {
        refuse(
            Platform::Linux,
            &path(text),
            &path("/tmp/t"),
            None,
            &mounts,
            &trees(Platform::Linux),
            &no_facts(),
        )
    };
    let reason = refused("/tmp/t/a").expect("refused");
    assert!(reason.contains("mounted inside"), "{reason}");
    assert_eq!(refused("/tmp/t/a/one.bin"), None);
}

#[test]
fn a_mount_below_a_target_is_caught_again_at_removal_time() {
    let mounts = vec![guard_key(Platform::Linux, &path("/tmp/t/a/b"))];
    let reason =
        mounted(Platform::Linux, &path("/tmp/t/a"), &mounts, false).expect("caught");
    assert!(reason.contains("mounted inside"), "{reason}");
    assert_eq!(
        mounted(Platform::Linux, &path("/tmp/t/other"), &mounts, false),
        None
    );
    assert_eq!(
        mounted(Platform::Linux, &path("/tmp/t/other"), &mounts, true),
        Some("it became a mount point since it was marked".into())
    );
}

#[test]
fn macos_guards_see_through_other_spellings() {
    let platform = Platform::MacOs;
    let home = Home::of(platform, &path("/Users/tobi"), None, None);
    assert!(
        refuse(
            platform,
            &path("/System/Volumes/Data/Users/tobi/src"),
            &path(MACOS_DATA_VOLUME),
            Some(&home),
            &[],
            &trees(platform),
            &no_facts(),
        )
        .is_none(),
        "home under the Data volume's name is still home"
    );
    let reason =
        refused(platform, "/library/caches", "/Users/tobi", &[]).expect("refused");
    assert!(reason.contains("/Library"), "{reason}");
}

#[test]
fn a_target_reached_through_a_link_is_refused() {
    let mut world = world(Platform::Linux, None);
    world.real_root = Some(path("/tmp/t"));
    let mut through = candidate(target("/tmp/t/link/precious.bin", 4));
    through.facts.real_parent = Some(path("/tmp/keep"));
    let plan = plan(&world, &[through], &path("/tmp/t"));
    assert!(plan.is_empty());
    assert!(
        plan.blocked[0].reason.contains("through a link"),
        "{}",
        plan.blocked[0].reason
    );
    assert_eq!(
        plan.blocked[0].reason,
        "reached through a link: it is really /tmp/keep/precious.bin"
    );
}

#[test]
fn without_a_root_a_path_is_where_it_says() {
    // Below an empty root everything is itself, wherever that really is.
    let judged = |text: &str, parent: &str| {
        linked(
            Platform::Linux,
            &path(text),
            &path(""),
            Some(&path("/cwd")),
            None,
            Some(&path(parent)),
        )
    };
    assert_eq!(judged("/a/x", "/a"), None);
    assert_eq!(
        judged("/a/x", "/b"),
        Some("reached through a link: it is really /b/x".into())
    );
    assert_eq!(judged("a/x", "/cwd/a"), None);
}

#[test]
fn links_above_the_root_are_the_users_own_choice() {
    let judged = |real_parent: Option<&PathBuf>| {
        linked(
            Platform::Linux,
            &path("/var/t/a/x"),
            &path("/var/t"),
            Some(&path("/private/var/t")),
            None,
            real_parent,
        )
    };
    assert_eq!(judged(Some(&path("/private/var/t/a"))), None);
    assert!(judged(Some(&path("/var/t/a"))).is_some());
    assert_eq!(judged(None), None, "what cannot be resolved passes");
}

#[test]
fn home_is_found_by_its_real_path_too() {
    let home = Home::of(
        Platform::Linux,
        &path("/spelled/home/user"),
        Some(&path("/tmp/t/data/home/user")),
        None,
    );
    let root = path("/tmp/t");
    let judged = |name: &str| {
        linked(
            Platform::Linux,
            &path(&format!("/tmp/t/{name}")),
            &root,
            Some(&root),
            Some(&home),
            Some(&root),
        )
    };
    let reason = judged("data").expect("refused");
    assert!(reason.contains("home directory"), "{reason}");
    assert_eq!(judged("other"), None);
}

#[test]
fn home_is_found_by_its_identity_too() {
    let home = Home::of(Platform::Linux, &path("/home/tobi"), None, Some((1, 2)));
    let judged = |identity: Option<(u64, u64)>| {
        refuse(
            Platform::Linux,
            &path("/mnt/elsewhere"),
            &path("/"),
            Some(&home),
            &[],
            &trees(Platform::Linux),
            &Facts {
                identity,
                mount_point: false,
                real_parent: None,
            },
        )
    };
    assert_eq!(
        judged(Some((1, 2))),
        Some("the home directory cannot be removed".into())
    );
    assert_eq!(judged(Some((1, 3))), None);
    assert_eq!(judged(None), None);
}

#[test]
fn every_guard_says_why() {
    let judged = |text: &str, mount_point: bool, mounts: &[PathBuf]| {
        refuse(
            Platform::Linux,
            &path(text),
            &path("/"),
            Some(&Home::of(Platform::Linux, &path("/home/tobi"), None, None)),
            mounts,
            &trees(Platform::Linux),
            &Facts {
                identity: None,
                mount_point,
                real_parent: None,
            },
        )
    };
    assert_eq!(
        judged("/usr/lib", false, &[]),
        Some("part of the system under /usr: remove it with the tool that installed it".into())
    );
    assert_eq!(
        judged("/var", false, &[]),
        Some("it contains /var/lib, which is part of the system".into())
    );
    assert_eq!(
        judged("/home", false, &[]),
        Some("it contains the home directory".into())
    );
    assert_eq!(
        judged("/mnt/x", true, &[]),
        Some("a mount point: removing it would cross onto another filesystem".into())
    );
    assert_eq!(
        judged("/mnt/x", false, &[path("/mnt/x/y")]),
        Some(
            "/mnt/x/y is mounted inside it: removing it would reach into another filesystem"
                .into()
        )
    );
    assert_eq!(judged("/mnt/x", false, &[path("/mnt/z")]), None);
}

#[test]
fn a_plan_accounts_for_every_mark_by_normalized_path() {
    let plan = planned(
        &[
            ("/tmp/t/b/./x/..", 1),
            ("/tmp/t/a", 2),
            ("/tmp/t/b/c", 4),
            ("/tmp/t/a/../a", 8),
            ("/etc/hosts", 16),
        ],
        "/tmp/./t/",
    );
    let spelled: Vec<String> = plan.targets.iter().map(|target| target.path.display(Platform::Linux)).collect();
    assert_eq!(spelled, ["/tmp/t/a", "/tmp/t/b"]);
    let covered: Vec<u64> = plan.covered.iter().map(|target| target.bytes).collect();
    assert_eq!(covered, [8, 4], "marked twice, and inside another");
    assert_eq!(plan.blocked.len(), 1);
    assert_eq!(plan.blocked[0].path, path("/etc/hosts"));
    assert_eq!(plan.root.display(Platform::Linux), "/tmp/t");
    assert_eq!(plan.bytes(), 3);
}

/// The paths of `targets`, as they are spelled.
fn spelled(targets: &[Target]) -> Vec<String> {
    targets.iter().map(|target| target.path.display(Platform::Linux)).collect()
}

#[test]
fn what_is_inside_a_target_is_covered_whatever_its_case() {
    for platform in [Platform::MacOs, Platform::Windows] {
        let mut world = world(platform, None);
        world.trees = Vec::new();
        let under = |names: &str, bytes: u64| {
            let mut target = target(names, bytes);
            if platform == Platform::Windows {
                let drive = vec![Component::Prefix(Prefix::Disk(b'C'))];
                let mut parts = drive;
                parts.extend(path(names).parts);
                target.path = PathBuf::build(platform, parts);
            }
            candidate(target)
        };
        let root = under("/r", 0).target.path;
        world.mounts = Ok(vec![guard_key(platform, &under("/", 0).target.path)]);
        // `/r/B/x` comes first by its spelling, and is inside `/r/b`.
        for marks in [
            [under("/r/B/x", 5), under("/r/b", 30)],
            [under("/r/b", 30), under("/r/B/x", 5)],
        ] {
            let plan = plan(&world, &marks, &root);
            assert_eq!(plan.targets.len(), 1, "{plan:?}");
            assert_eq!(plan.targets[0].bytes, 30);
            assert_eq!(plan.covered.len(), 1);
            assert_eq!(plan.covered[0].bytes, 5);
            assert_eq!(plan.bytes(), 30, "counted once");
        }
        // One place, spelled twice: the first by path order stays.
        let plan = plan(&world, &[under("/r/a", 1), under("/r/A", 2)], &root);
        assert_eq!(plan.targets.len(), 1);
        assert_eq!(plan.targets[0].bytes, 2);
        assert_eq!(plan.covered[0].bytes, 1);
    }
    let mut world = world(Platform::MacOs, None);
    world.trees = Vec::new();
    let marks = [candidate(target("/r/B/x", 5)), candidate(target("/r/b", 30))];
    let plan = plan(&world, &marks, &path("/r"));
    assert_eq!(spelled(&plan.targets), ["/r/b"]);
    assert_eq!(spelled(&plan.covered), ["/r/B/x"]);
}

#[test]
fn a_plans_own_targets_plan_the_same_again() {
    for platform in [Platform::Linux, Platform::MacOs] {
        let world = world(platform, Some("/home/tobi"));
        let marks = [
            candidate(target("/tmp/t/b/./x/..", 1)),
            candidate(target("/tmp/t/A/x", 2)),
            candidate(target("/tmp/t/a", 4)),
            candidate(target("/tmp/t/b/c", 8)),
            candidate(target("/etc/hosts", 16)),
        ];
        let first = plan(&world, &marks, &path("/tmp/./t/"));
        assert!(!first.covered.is_empty() && !first.blocked.is_empty());
        let again: Vec<Candidate> =
            first.targets.iter().map(|target| candidate(target.clone())).collect();
        let second = plan(&world, &again, &first.root);
        assert_eq!(spelled(&second.targets), spelled(&first.targets));
        assert!(second.covered.is_empty() && second.blocked.is_empty());
        assert_eq!(second.root.display(Platform::Linux), first.root.display(Platform::Linux));
        assert_eq!(second.bytes(), first.bytes());
    }
}

#[test]
fn without_a_mount_table_everything_is_blocked() {
    let mut world = world(Platform::Linux, None);
    world.mounts = Err("the mount table is still loading".into());
    let marks = [
        candidate(target("/tmp/t/a", 1)),
        candidate(target("/tmp/t/b", 2)),
    ];
    let plan = plan(&world, &marks, &path("/tmp/t"));
    assert!(plan.is_empty() && plan.covered.is_empty());
    assert_eq!(plan.blocked.len(), 2);
    assert_eq!(plan.blocked[1].reason, "the mount table is still loading");
}

#[test]
fn names_win32_would_misread_are_recognized() {
    for name in [
        "Users.",
        "Users ",
        "a. .",
        "NUL",
        "nul.txt",
        "Com1",
        "LPT9.log",
        "con ",
        "file:stream",
        "COM\u{b9}",
    ] {
        assert!(misread_by_win32(name), "{name:?}");
    }
    for name in ["Users", ".git", "..hidden", "console", "COM0", "LPT10"] {
        assert!(!misread_by_win32(name), "{name:?}");
    }
}

/// A Windows path on a drive.
fn on_drive(letter: u8, names: &[&str]) -> PathBuf {
    let mut parts = vec![
        Component::Prefix(Prefix::Disk(letter)),
        Component::RootDir,
    ];
    for name in names {
        parts.push(Component::Normal(name.as_bytes().to_vec()));
    }
    PathBuf::build(Platform::Windows, parts)
}

fn windows_trees() -> Vec<SystemTree> {
    let places = WindowsPlaces {
        set: vec![
            on_drive(b'C', &["Windows"]),
            on_drive(b'D', &["Apps"]),
            PathBuf::build(
                Platform::Windows,
                vec![Component::Normal(b"relative".to_vec())],
            ),
        ],
        drive: on_drive(b'C', &[]),
    };
    system_tree_keys(Platform::Windows, &places)
}

#[test]
fn windows_system_trees_are_refused_in_a_whole_disk_scan() {
    let trees = windows_trees();
    let home = on_drive(b'C', &["Users", "tobi"]);
    let key = |path: &PathBuf| guard_key(Platform::Windows, path);
    let system = |names: &[&str]| {
        system_tree(&key(&on_drive(b'C', names)), Some(&key(&home)), &trees)
            .map(|name| name.to_lowercase())
    };
    assert!(
        system(&["WINDOWS", "System32", "drivers", "etc", "hosts"]).is_some(),
        "without regard to case"
    );
    assert!(system(&["Program Files", "App", "app.exe"]).is_some());
    assert!(system(&["Program Files (x86)", "App"]).is_some());
    assert!(system(&["ProgramData", "Vendor", "state.db"]).is_some());
    assert!(system(&["System Volume Information"]).is_some());
    assert!(system(&["pagefile.sys"]).is_some());
    assert!(system(&["HIBERFIL.SYS"]).is_some());
    assert_eq!(system(&["Windows.old"]), None, "components, not prefixes");
    assert_eq!(system(&["Users", "tobi", "AppData", "Local", "Temp"]), None);
    assert_eq!(system(&["Games"]), None);
    let reason = refuse(
        Platform::Windows,
        &on_drive(b'C', &["Windows", "Temp"]),
        &on_drive(b'C', &[]),
        Some(&Home::of(Platform::Windows, &home, None, None)),
        &[],
        &trees,
        &no_facts(),
    );
    assert_eq!(
        reason,
        Some(
            r"part of the system under C:\Windows: use Settings, or the program's own uninstaller"
                .into()
        )
    );
}

#[test]
fn windows_places_are_taken_from_the_environment_where_they_are_absolute() {
    let names: Vec<String> = windows_trees().into_iter().map(|tree| tree.name).collect();
    assert_eq!(names[0], r"C:\Windows");
    assert_eq!(names[1], r"D:\Apps");
    assert_eq!(names[2], r"C:\Windows", "the relative one is left out");
    assert_eq!(names.len(), 14);
    assert_eq!(windows_variables()[2], "ProgramFiles(x86)");
    assert_eq!(system_drive(Some("D:")), r"D:\");
    assert_eq!(system_drive(None), r"C:\");
}

#[test]
fn a_misread_name_anywhere_in_a_path_is_refused_on_windows() {
    let judged = |names: &[&str]| {
        refuse(
            Platform::Windows,
            &on_drive(b'C', names),
            &on_drive(b'C', &[]),
            None,
            &[],
            &[],
            &no_facts(),
        )
    };
    assert_eq!(
        judged(&["a", "Users.", "b"]),
        Some("Windows would read Users. as a different name, and remove that".into())
    );
    assert_eq!(judged(&["a", "b"]), None);
}

#[test]
fn system_trees_are_refused_in_a_whole_disk_scan() {
    let home = "/home/tobi";
    assert_eq!(tree_of("/usr/lib/libfoo.so", home).as_deref(), Some("/usr"));
    assert_eq!(tree_of("/var/lib/pacman", home).as_deref(), Some("/var/lib"));
    assert_eq!(tree_of("/var/cache/pacman/pkg", home), None);
    assert_eq!(tree_of("/opt/thing", home), None);
    assert_eq!(
        tree_of("/home/linuxbrew/.linuxbrew/Cellar", home).as_deref(),
        Some("/home/linuxbrew/.linuxbrew")
    );
    assert_eq!(
        tree_of("/gnu/store/abc-hello", home).as_deref(),
        Some("/gnu/store")
    );
    assert_eq!(tree_of("/usrlocal", home), None, "components, not prefixes");
    assert_eq!(tree_of("/usr/home/tobi/.cache", "/usr/home/tobi"), None);
    let reason = refused(Platform::Linux, "/etc/hosts", home, &[]);
    assert!(reason.is_some_and(|reason| reason.contains("/etc")));
}

#[test]
fn macos_system_trees_are_refused_but_apps_are_not() {
    let home = "/Users/tobi";
    for (path, tree) in [
        ("/System/Library/Fonts", "/System"),
        ("/Library/Caches/com.apple.x", "/Library"),
        ("/private/etc/hosts", "/private"),
        ("/private/var/folders/xy", "/private"),
        ("/opt/homebrew/Cellar/git", "/opt/homebrew"),
    ] {
        assert_eq!(tree_of(path, home).as_deref(), Some(tree));
    }
    for path in ["/Applications/Xcode.app", "/Users/tobi/Library/Caches"] {
        assert_eq!(tree_of(path, home), None, "{path}");
    }
}

#[test]
fn removal_modes_are_named() {
    assert_eq!(RemovalMode::default(), RemovalMode::Permanent);
    assert_eq!(RemovalMode::Permanent.label(), "Delete permanently");
    assert_eq!(RemovalMode::Trash.label(), "Move to trash");
    assert_eq!(RemovalMode::Permanent.detail(), "rm -rf: unrecoverable");
    assert_eq!(
        RemovalMode::Trash.detail(),
        "recoverable until the trash is emptied"
    );
}
