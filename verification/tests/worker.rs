//! Removing what was planned, on a disk kept in memory.

use std::collections::BTreeMap;

use disktree::deletion::{remove_permanently, Deletion, LastWay, Reply, Request, TargetKind};
use disktree::descent::{open_parent, open_root, Step};
use disktree::fault::{Fault, FaultKind};
use disktree::judge::Facts;
use disktree::path::PathBuf;
use disktree::platform::Platform;
use disktree::removal::{plan, Candidate, Plan, RemovalMode, Target, World};
use disktree::sweep::{Action, Entry, EntryKind, Event, Volume};
use disktree::trash::TrashBackend;
use disktree::worker::{
    attempt, backend_for, worker_failed, Attempt, RemovalEvent, RemovalHandle, Run,
};

fn path(text: &str) -> PathBuf {
    PathBuf::of(text)
}

const HERE: Volume = Volume {
    device: 1,
    mount: Some(1),
};

#[derive(Clone, Debug, PartialEq)]
enum Thing {
    Directory(Volume),
    File,
    Link(String),
}

/// What is at each path.
struct Disk {
    things: BTreeMap<String, Thing>,
    platform: Platform,
    /// Whether listings say what an entry is.
    kinds: bool,
    /// What the mount table names.
    mounts: Vec<String>,
    /// What was asked for, in order.
    asked: Vec<String>,
}

fn failed(kind: FaultKind, text: &str) -> Fault {
    Fault {
        kind,
        text: text.to_string(),
    }
}

fn not_found() -> Fault {
    failed(FaultKind::NotFound, "No such file or directory (os error 2)")
}

fn below(dir: &str, name: &[u8]) -> String {
    let name = String::from_utf8(name.to_vec()).expect("a test name");
    format!("{}/{name}", dir.trim_end_matches('/'))
}

impl Disk {
    /// `/r` with the directories `a/b` and `other` and some files.
    fn tree() -> Disk {
        let mut disk = Disk {
            things: BTreeMap::new(),
            platform: Platform::Linux,
            kinds: true,
            mounts: vec!["/".to_string()],
            asked: Vec::new(),
        };
        for dir in ["/", "/r", "/r/a", "/r/a/b", "/r/other", "/keep"] {
            disk.put(dir, Thing::Directory(HERE));
        }
        for file in ["/r/a/one.bin", "/r/a/c.bin", "/keep/precious.bin"] {
            disk.put(file, Thing::File);
        }
        disk
    }

    fn put(&mut self, path: &str, thing: Thing) {
        self.things.insert(path.to_string(), thing);
    }

    fn has(&self, path: &str) -> bool {
        self.things.contains_key(path)
    }

    fn clear(&mut self, path: &str) {
        let inside = format!("{path}/");
        self.things
            .retain(|name, _| name != path && !name.starts_with(&inside));
    }

    /// Where a path leads when its own links are followed.
    fn followed(&self, path: &str) -> String {
        match self.things.get(path) {
            Some(Thing::Link(target)) => self.followed(target),
            _ => path.to_string(),
        }
    }

    fn volume(&self, path: &str) -> Option<Volume> {
        match self.things.get(path) {
            Some(Thing::Directory(volume)) => Some(*volume),
            _ => None,
        }
    }

    fn listed(&self, dir: &str) -> Vec<Entry> {
        let entry = |name: &str, kind: EntryKind| Entry {
            name: name.as_bytes().to_vec(),
            kind: if self.kinds { kind } else { EntryKind::Unknown },
        };
        let mut entries = vec![
            entry(".", EntryKind::Directory),
            entry("..", EntryKind::Directory),
        ];
        let inside = format!("{}/", dir.trim_end_matches('/'));
        for (path, thing) in &self.things {
            let Some(name) = path.strip_prefix(&inside) else {
                continue;
            };
            if name.is_empty() || name.contains('/') {
                continue;
            }
            let kind = match thing {
                Thing::Directory(_) => EntryKind::Directory,
                _ => EntryKind::Other,
            };
            entries.push(entry(name, kind));
        }
        entries
    }

    /// Take a step on the way down from `at`.
    fn stepped(&self, step: Step, root: &str, at: &mut String) -> Reply {
        let next = match step {
            Step::Top => "/".to_string(),
            Step::Root => self.followed(root),
            Step::Above(ref part) | Step::Below(ref part) => below(at, part),
            Step::BadRoot | Step::BadTarget => {
                return Reply::Failed(failed(FaultKind::InvalidInput, "Invalid argument"));
            }
        };
        match self.things.get(&next) {
            Some(Thing::Directory(_)) => {
                *at = next;
                Reply::Opened
            }
            Some(_) if matches!(step, Step::Below(_)) => Reply::NotDirectory,
            Some(_) => Reply::Failed(failed(FaultKind::Other, "Not a directory (os error 20)")),
            None => Reply::Failed(not_found()),
        }
    }

    /// Do what a sweep asks for in the innermost of `open`.
    fn swept(&mut self, action: Action, open: &mut Vec<String>) -> Event {
        let here = open.last().expect("open").clone();
        match action {
            Action::List => Event::Listed(self.listed(&here)),
            Action::Open(name) => {
                let inner = below(&here, &name);
                match self.volume(&inner) {
                    Some(volume) => {
                        open.push(inner);
                        Event::Opened(volume)
                    }
                    None => Event::NotDirectory,
                }
            }
            Action::Unlink(name) => {
                let gone = self.things.remove(&below(&here, &name));
                assert!(!matches!(gone, Some(Thing::Directory(_))));
                Event::Removed
            }
            Action::RemoveDirectory(name) => {
                open.pop();
                let holder = open.last().expect("open");
                assert_eq!(below(holder, &name), here);
                assert_eq!(self.listed(&here).len(), 2, "emptied first");
                self.things.remove(&here);
                Event::Removed
            }
            Action::Done | Action::Stopped(_) => panic!("nothing is asked for"),
        }
    }

    /// Remove `target` for good, as it was marked below `root`.
    fn remove(&mut self, target: &str, root: &str) -> Result<(), Fault> {
        let mut deletion = remove_permanently(self.platform, path(target), path(root));
        let mut at = String::new();
        let mut open: Vec<String> = Vec::new();
        let windows = self.platform == Platform::Windows;
        loop {
            let request = deletion.request();
            self.asked.push(named(&request));
            let reply = match request {
                Request::Done => return Ok(()),
                Request::Failed(fault) => return Err(fault),
                Request::Mounts => Reply::Mounts {
                    mounts: self.mounts.iter().map(|point| path(point)).collect(),
                    mount_point: false,
                },
                Request::Open(step) => self.stepped(step, root, &mut at),
                Request::Inspect(name) => {
                    let place = if windows { target.to_string() } else { below(&at, &name) };
                    match self.things.get(&place) {
                        Some(Thing::Directory(_)) => Reply::Is(TargetKind::Directory),
                        Some(_) => Reply::Is(TargetKind::Other),
                        None => Reply::Failed(not_found()),
                    }
                }
                Request::Enter(name) => {
                    let place = below(&at, &name);
                    let reply = Reply::Entered {
                        parent: self.volume(&at).expect("a directory"),
                        top: self.volume(&place).expect("a directory"),
                    };
                    open.push(place);
                    reply
                }
                Request::Sweep(action) => Reply::Swept(self.swept(action, &mut open)),
                Request::Remove(way, name) => {
                    let place = if windows { target.to_string() } else { below(&at, &name) };
                    if way == LastWay::Tree {
                        self.clear(&place);
                    } else if way == LastWay::Directory {
                        assert_eq!(self.listed(&place).len(), 2, "emptied first");
                    }
                    self.things.remove(&place);
                    Reply::Removed
                }
            };
            deletion = deletion.step(reply);
        }
    }
}

/// A word for what is asked for.
fn named(request: &Request) -> String {
    let word = match request {
        Request::Mounts => "mounts",
        Request::Open(_) => "open",
        Request::Inspect(_) => "inspect",
        Request::Enter(_) => "enter",
        Request::Sweep(_) => "sweep",
        Request::Remove(_, _) => "remove",
        Request::Done => "done",
        Request::Failed(_) => "failed",
    };
    word.to_string()
}

#[test]
fn permanent_removal_takes_nested_trees_and_hidden_files() {
    for kinds in [true, false] {
        let mut disk = Disk::tree();
        disk.kinds = kinds;
        for dir in ["/r/a/b/c", "/r/a/b/c/d"] {
            disk.put(dir, Thing::Directory(HERE));
        }
        disk.put("/r/a/b/c/d/.hidden", Thing::File);
        disk.put("/r/a/b/c/f", Thing::File);
        disk.remove("/r/a", "/r").expect("remove tree");
        assert!(!disk.things.keys().any(|path| path.starts_with("/r/a")));
        assert!(disk.has("/r/other"));
    }
}

#[test]
fn permanent_removal_unlinks_nested_symlinks_without_following_them() {
    for kinds in [true, false] {
        let mut disk = Disk::tree();
        disk.kinds = kinds;
        disk.put("/r/a/link", Thing::Link("/keep".to_string()));
        disk.remove("/r/a", "/r").expect("remove tree");
        assert!(!disk.has("/r/a/link"));
        assert!(disk.has("/keep/precious.bin"));
    }
}

#[test]
fn permanent_removal_takes_directories_and_leaves_siblings() {
    let mut disk = Disk::tree();
    disk.remove("/r/a/b", "/r").expect("remove dir");
    assert!(!disk.has("/r/a/b"));
    assert!(disk.has("/r/a/c.bin"));
}

#[test]
fn permanent_removal_unlinks_a_symlink_instead_of_following_it() {
    let mut disk = Disk::tree();
    disk.put("/r/link", Thing::Link("/keep".to_string()));
    disk.remove("/r/link", "/r").expect("remove link");
    assert!(!disk.has("/r/link"), "the link is gone");
    assert!(disk.has("/keep/precious.bin"));
}

#[test]
fn permanent_removal_does_not_follow_a_link_put_on_the_way_down() {
    let mut disk = Disk::tree();
    disk.put("/keep/x", Thing::Directory(HERE));
    disk.clear("/r/a/b");
    disk.put("/r/a/b", Thing::Link("/keep".to_string()));
    let error = disk.remove("/r/a/b/x", "/r").expect_err("refused");
    assert!(error.text.contains("changed since"), "{error:?}");
    assert_eq!(
        error.text,
        "/r/a/b/x changed since the scan: b is no longer a directory, so nothing was removed"
    );
    assert!(disk.has("/keep/x"));
}

#[test]
fn permanent_removal_refuses_root_and_ancestor_symlink_swaps() {
    let mut disk = Disk::tree();
    disk.clear("/r");
    disk.put("/r", Thing::Link("/keep".to_string()));
    assert!(
        disk.remove("/r/precious.bin", "/r").is_err(),
        "root link refused"
    );
    assert!(disk.has("/keep/precious.bin"), "the target survived");

    disk.put("/parent", Thing::Link("/replacement".to_string()));
    disk.put("/replacement", Thing::Directory(HERE));
    disk.put("/replacement/root", Thing::Directory(HERE));
    disk.put("/replacement/root/marked.bin", Thing::File);
    assert!(
        disk.remove("/parent/root/marked.bin", "/parent/root").is_err(),
        "ancestor link refused"
    );
    assert!(disk.has("/replacement/root/marked.bin"), "the target survived");
}

#[test]
fn permanent_removal_follows_links_above_the_root() {
    let mut disk = Disk::tree();
    disk.platform = Platform::MacOs;
    disk.put("/spelled", Thing::Link("/r".to_string()));
    disk.remove("/spelled/a/b", "/spelled").expect("removed");
    assert!(!disk.has("/r/a/b"));
    assert!(disk.has("/r/a/one.bin"));
}

#[test]
fn a_missing_target_reports_not_found() {
    let mut disk = Disk::tree();
    let error = disk.remove("/r/absent", "/r").expect_err("nothing there");
    assert_eq!(error.kind, FaultKind::NotFound);
    assert_eq!(error.text, "No such file or directory (os error 2)");
    disk.platform = Platform::Windows;
    let error = disk.remove("/r/absent", "/r").expect_err("nothing there");
    assert_eq!(error.kind, FaultKind::NotFound);
}

#[test]
fn a_mount_inside_a_directory_stops_its_removal() {
    let mut disk = Disk::tree();
    let other = Volume {
        device: 1,
        mount: Some(2),
    };
    disk.put("/r/a/b", Thing::Directory(other));
    disk.put("/r/a/b/mounted.bin", Thing::File);
    let error = disk.remove("/r/a", "/r").expect_err("stopped");
    assert_eq!(
        error.text,
        "stopped at /r/a/b: another filesystem is mounted there, and nothing on it was touched"
    );
    assert!(disk.has("/r/a/b/mounted.bin") && disk.has("/r/a"));
    let error = disk.remove("/r/a/b", "/r").expect_err("refused");
    assert_eq!(error.text, "refusing to remove mounted filesystem /r/a/b");
    assert_eq!(error.kind, FaultKind::Other);
}

#[test]
fn a_deletion_goes_through_its_stages_in_order() {
    let mut disk = Disk::tree();
    disk.put("/r/a/b/f", Thing::File);
    disk.remove("/r/a/b", "/r").expect("removed");
    assert_eq!(
        disk.asked,
        [
            "mounts", "open", "open", "open", "inspect", "enter", "sweep", "sweep", "remove",
            "done"
        ]
    );

    let mut disk = Disk::tree();
    disk.platform = Platform::MacOs;
    disk.remove("/r/a/one.bin", "/r").expect("removed");
    assert_eq!(disk.asked, ["open", "open", "inspect", "remove", "done"]);

    let mut disk = Disk::tree();
    disk.platform = Platform::Windows;
    disk.remove("/r/a", "/r").expect("removed");
    assert_eq!(disk.asked, ["inspect", "remove", "done"]);
    assert!(!disk.has("/r/a") && !disk.has("/r/a/one.bin"));
}

#[test]
fn nothing_is_opened_where_something_is_mounted() {
    let mut disk = Disk::tree();
    disk.mounts.push("/r/a/b".to_string());
    let error = disk.remove("/r/a", "/r").expect_err("refused");
    assert_eq!(
        error.text,
        "refusing to remove mounted filesystem /r/a/b at or inside /r/a"
    );
    assert_eq!(disk.asked, ["mounts", "failed"]);
    assert!(disk.has("/r/a/one.bin"));
    // A target outside the root, or below a `..`, is refused on the way.
    disk.asked.clear();
    let error = disk.remove("/keep", "/r").expect_err("outside");
    assert_eq!(error.text, "/keep is not inside the scanned root /r");
    let error = disk.remove("/r/../keep", "/r").expect_err("not normalized");
    assert_eq!(error.text, "/r/../keep is not an absolute, normalized path");
    assert!(disk.has("/keep"));
}

#[test]
fn a_failure_at_any_stage_keeps_its_kind() {
    let deletion = remove_permanently(Platform::Linux, path("/r/x"), path("/r"));
    let deletion = deletion.step(Reply::Failed(failed(FaultKind::PermissionDenied, "no")));
    match deletion.request() {
        Request::Failed(fault) => {
            assert_eq!(fault.kind, FaultKind::PermissionDenied);
            assert_eq!(fault.text, "no");
        }
        other => panic!("expected a failure, got {other:?}"),
    }
    // A root that is not absolute is asked of the system, which refuses it.
    let mut disk = Disk::tree();
    let error = disk.remove("r/x", "r").expect_err("no such root");
    assert_eq!(error.kind, FaultKind::InvalidInput);
}

#[test]
fn the_way_down_is_the_path_that_was_marked() {
    let (steps, name) =
        open_parent(Platform::Linux, &path("/r/s/a/b"), &path("/r/s")).expect("a way");
    assert_eq!(name, b"b");
    assert_eq!(steps.len(), 4);
    assert!(matches!(steps[0], Step::Top));
    assert!(matches!(&steps[1], Step::Above(part) if part == b"r"));
    assert!(matches!(&steps[2], Step::Above(part) if part == b"s"));
    assert!(matches!(&steps[3], Step::Below(part) if part == b"a"));
    assert_eq!(
        open_parent(Platform::Linux, &path("/x/a"), &path("/r")).expect_err("outside"),
        "/x/a is not inside the scanned root /r"
    );
    assert_eq!(
        open_parent(Platform::Linux, &path("/r/.."), &path("/r")).expect_err("no name"),
        "/r/.. is not an absolute, normalized path"
    );
    let (steps, _) = open_parent(Platform::Linux, &path("/r/../a"), &path("/r")).expect("a way");
    assert!(matches!(steps.last(), Some(Step::BadTarget)));
    assert!(matches!(
        open_root(Platform::Linux, &path("r")).last(),
        Some(Step::BadRoot)
    ));
    assert!(matches!(
        open_root(Platform::MacOs, &path("r")).as_slice(),
        [Step::Root]
    ));
}

#[test]
fn a_volume_is_judged_by_its_mount_where_the_kernel_names_one() {
    let volume = |device: u64, mount: Option<u64>| Volume { device, mount };
    let contains =
        |one: Volume, other: Volume| one.contains(Platform::Linux, &other);
    assert!(contains(HERE, HERE));
    // A btrfs subvolume: another device, the same mount.
    assert!(
        contains(volume(1, Some(7)), volume(2, Some(7))),
        "same mount, other device"
    );
    // A bind mount: the same device, another mount.
    assert!(!contains(volume(1, Some(7)), volume(1, Some(8))));
    // A Linux volume without mount IDs cannot be compared safely.
    assert!(
        !contains(volume(1, None), volume(1, None)),
        "Linux cannot infer a shared mount without mount IDs"
    );
    assert!(!contains(volume(1, None), volume(2, None)));
}

#[test]
fn a_volume_uses_its_device_where_mount_ids_are_unavailable() {
    let volume = |device: u64| Volume {
        device,
        mount: None,
    };
    let contains =
        |one: Volume, other: Volume| one.contains(Platform::MacOs, &other);
    assert!(contains(volume(1), volume(1)));
    assert!(!contains(volume(1), volume(2)));
    assert!(
        contains(volume(2), volume(2)),
        "only the same device is available"
    );
}

/// A deletion that has come down to its target.
fn at_target(platform: Platform) -> Deletion {
    let deletion = remove_permanently(platform, path("/r/x"), path("/r"));
    if platform == Platform::Windows {
        deletion
    } else {
        deletion.step(Reply::Opened)
    }
}

#[test]
fn a_link_is_removed_as_a_link_on_every_platform() {
    let way = |platform: Platform, kind: TargetKind| {
        match at_target(platform).step(Reply::Is(kind)).request() {
            Request::Remove(way, name) => {
                assert_eq!(name, b"x");
                Some(way)
            }
            Request::Enter(_) => None,
            other => panic!("expected a removal, got {other:?}"),
        }
    };
    assert_eq!(way(Platform::MacOs, TargetKind::Directory), None, "emptied first");
    assert_eq!(
        way(Platform::MacOs, TargetKind::DirectoryLink),
        Some(LastWay::Unlink)
    );
    assert_eq!(way(Platform::MacOs, TargetKind::Other), Some(LastWay::Unlink));
    assert_eq!(
        way(Platform::Windows, TargetKind::Directory),
        Some(LastWay::Tree)
    );
    assert_eq!(
        way(Platform::Windows, TargetKind::DirectoryLink),
        Some(LastWay::Link)
    );
    assert_eq!(way(Platform::Windows, TargetKind::Other), Some(LastWay::Unlink));
}

fn facts(real_parent: Option<&str>) -> Facts {
    Facts {
        identity: None,
        mount_point: false,
        real_parent: real_parent.map(PathBuf::of),
    }
}

fn world() -> World {
    World {
        platform: Platform::Linux,
        mounts: Ok(vec![path("/")]),
        home: None,
        real_root: Some(path("/r")),
        trees: Vec::new(),
    }
}

fn planned(targets: &[(&str, u64)]) -> Plan {
    let candidates: Vec<Candidate> = targets
        .iter()
        .map(|(text, bytes)| Candidate {
            target: Target {
                path: path(text),
                bytes: *bytes,
                is_dir: false,
                hidden: false,
            },
            facts: facts(None),
        })
        .collect();
    plan(&world(), &candidates, &path("/r"))
}

#[test]
fn a_removal_run_reports_every_item_and_a_total() {
    let mut disk = Disk::tree();
    let plan = planned(&[("/r/a/b", 0), ("/r/a/c.bin", 20), ("/r/absent", 0)]);
    assert_eq!(plan.targets.len(), 3);

    let mut handle = RemovalHandle::new();
    let (mut run, start) = Run::start(&plan);
    handle.report(start);
    while let Some(target) = run.next(handle.is_cancelled()) {
        let place = target.path.display(Platform::Linux);
        let todo = attempt(
            &world(),
            &target.path,
            &plan.root,
            &facts(None),
            RemovalMode::Permanent,
            TrashBackend::Unavailable,
        );
        let outcome = match todo {
            Attempt::Remove => disk.remove(&place, "/r").map_err(|fault| fault.text),
            other => panic!("expected a removal, got {other:?}"),
        };
        handle.report(run.record(outcome));
    }
    handle.report(run.finish());

    let mut events = Vec::new();
    while let Some(event) = handle.poll() {
        events.push(event);
    }
    assert!(matches!(events[0], RemovalEvent::Start { total: 3 }));
    let items = events
        .iter()
        .filter(|event| matches!(event, RemovalEvent::Item { .. }))
        .count();
    assert_eq!(items, 3);
    match events.last() {
        Some(RemovalEvent::Done {
            removed,
            bytes,
            failed,
        }) => {
            assert_eq!(*removed, 2);
            assert_eq!(*failed, 1);
            assert_eq!(*bytes, 20);
        }
        other => panic!("expected Done, got {other:?}"),
    }
    assert!(!disk.has("/r/a/b"));
    assert!(disk.has("/r/a/one.bin"));
}

#[test]
fn a_link_put_on_the_way_down_after_planning_stops_the_worker() {
    let plan = planned(&[("/r/a/b/x", 0)]);
    assert_eq!(plan.targets.len(), 1);
    let target = &plan.targets[0];
    for mode in [RemovalMode::Permanent, RemovalMode::Trash] {
        let todo = attempt(
            &world(),
            &target.path,
            &plan.root,
            &facts(Some("/keep")),
            mode,
            TrashBackend::Gio,
        );
        match todo {
            Attempt::Refuse(error) => assert!(error.contains("through a link"), "{error}"),
            other => panic!("expected a refusal, got {other:?}"),
        }
    }
}

#[test]
fn a_run_stops_where_it_is_cancelled() {
    let plan = planned(&[("/r/x", 1), ("/r/y", 2)]);
    let mut handle = RemovalHandle::new();
    let (mut run, _) = Run::start(&plan);
    assert!(run.next(handle.is_cancelled()).is_some());
    let event = run.record(Ok(()));
    assert!(matches!(event, RemovalEvent::Item { bytes: 1, outcome: Ok(()), .. }));
    handle.cancel();
    assert!(run.next(handle.is_cancelled()).is_none());
    assert!(matches!(
        run.finish(),
        RemovalEvent::Done { removed: 1, bytes: 1, failed: 0 }
    ));
}

#[test]
fn a_cancelled_run_ends_with_one_tally_over_what_was_attempted() {
    let plan = planned(&[("/r/w", 1), ("/r/x", 2), ("/r/y", 4), ("/r/z", 8)]);
    for stop in 0..=4_usize {
        let mut handle = RemovalHandle::new();
        let (mut run, start) = Run::start(&plan);
        let mut events = vec![start];
        let mut attempted = 0;
        loop {
            if attempted == stop {
                handle.cancel();
            }
            if run.next(handle.is_cancelled()).is_none() {
                break;
            }
            let outcome = if attempted == 1 { Err("busy".to_string()) } else { Ok(()) };
            attempted += 1;
            events.push(run.record(outcome));
        }
        events.push(run.finish());
        assert_eq!(events.len(), stop + 2);
        assert!(matches!(events[0], RemovalEvent::Start { total: 4 }));
        for (i, event) in events[1..=stop].iter().enumerate() {
            match event {
                RemovalEvent::Item { path, bytes, .. } => {
                    assert_eq!(path, &plan.targets[i].path);
                    assert_eq!(*bytes, plan.targets[i].bytes);
                }
                other => panic!("expected an item, got {other:?}"),
            }
        }
        match &events[stop + 1] {
            RemovalEvent::Done { removed, bytes, failed } => {
                assert_eq!(usize::try_from(*removed).expect("small") + failed, stop);
                assert_eq!(*failed, usize::from(stop > 1));
                assert_eq!(*bytes, [0, 1, 1, 5, 13][stop]);
            }
            other => panic!("expected the tally, got {other:?}"),
        }
    }
}

#[test]
fn the_trash_is_only_asked_for_where_it_is_used() {
    assert_eq!(
        backend_for(RemovalMode::Permanent, TrashBackend::Gio),
        TrashBackend::Unavailable
    );
    assert_eq!(
        backend_for(RemovalMode::Trash, TrashBackend::Gio),
        TrashBackend::Gio
    );
    let mut world = world();
    let todo = |world: &World| {
        attempt(
            world,
            &path("/r/x"),
            &path("/r"),
            &facts(None),
            RemovalMode::Trash,
            TrashBackend::Gio,
        )
    };
    assert!(matches!(todo(&world), Attempt::Trash(TrashBackend::Gio)));
    world.mounts = Err("no mount table".to_string());
    assert!(matches!(todo(&world), Attempt::Refuse(reason) if reason == "no mount table"));
}

#[test]
fn a_worker_that_cannot_start_says_so() {
    assert!(matches!(
        worker_failed("no threads"),
        RemovalEvent::Item { outcome: Err(reason), .. } if reason.contains("no threads")
    ));
}
