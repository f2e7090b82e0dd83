//! Moving things to the trash.

use disktree::path::PathBuf;
use disktree::platform::Platform;
use disktree::trash::{
    detect_trash_backend, home_trash_dir, macos_trash_failed, move_to_trash, tool_call,
    tool_outcome, which, TrashBackend, TrashMove,
};
use disktree::xdg::{
    deletion_date, percent_encode, trash_info, trash_info_now, trash_into, trash_layout, Settled,
    TrashEntry, TrashReply, TrashRequest, Trashing,
};

fn path(text: &str) -> PathBuf {
    PathBuf::of(text)
}

#[test]
fn percent_encoding_escapes_what_the_spec_requires() {
    assert_eq!(percent_encode("/home/tobi/a b"), "/home/tobi/a%20b");
    assert_eq!(percent_encode("/a/b-c.d_e~f"), "/a/b-c.d_e~f");
    assert_eq!(percent_encode("/a/néw"), "/a/n%C3%A9w");
    assert_eq!(percent_encode("/a\nb"), "/a%0Ab");
}

/// An entry named `name` in a trash where these names are taken.
fn placed(name: &str, taken: &[&str]) -> TrashEntry {
    let mut entry = trash_into(
        Platform::Linux,
        &path(&format!("/work/{name}")),
        &path("/trash"),
        1,
        1,
    )
    .expect("an entry");
    while taken.contains(&entry.unique_name().as_str()) {
        entry.is_taken();
    }
    entry
}

#[test]
fn trash_names_avoid_collisions() {
    let first = placed("notes", &[]);
    assert_eq!(first.unique_name(), "notes");
    let second = placed("notes", &["notes"]);
    assert_eq!(second.unique_name(), "notes.1");
    assert_ne!(first.file_path(), second.file_path());
    assert_eq!(placed("notes", &["notes", "notes.1"]).unique_name(), "notes.2");
}

#[test]
fn a_taken_name_is_never_used_again() {
    let mut entry = placed("notes", &[]);
    for _ in 0..9_999 {
        entry.is_taken();
    }
    assert_eq!(entry.unique_name(), "notes.9999");
    entry.is_taken();
    assert_eq!(entry.unique_name(), "notes.10000");
    assert_eq!(entry.file_path(), path("/trash/files/notes.10000"));
    assert_eq!(entry.info_path(), path("/trash/info/notes.10000.trashinfo"));
    // A gap is used, and names that only look alike are not in the way.
    assert_eq!(placed("notes", &["notes", "notes.2"]).unique_name(), "notes.1");
    assert_eq!(placed("notes", &["notes", "notes.01"]).unique_name(), "notes.1");
}

#[test]
fn a_move_without_a_record_is_undone() {
    let file = path("/work/notes");
    let entry = placed("notes", &["notes"]);
    assert!(matches!(entry.settle(&file, Ok(())), Settled::Kept));
    match entry.settle(&file, Err("disk full".to_string())) {
        Settled::PutBack { from, to, said } => {
            assert_eq!(from, path("/trash/files/notes.1"));
            assert_eq!(to, file);
            assert_eq!(said, "disk full");
        }
        other => panic!("expected the move to be undone, got {other:?}"),
    }
}

/// What is at `/work/notes` and in the trash after a move into it, and how
/// the move ended.
fn trashed(
    taken: &[&str],
    can_move: bool,
    can_record: bool,
    can_put_back: bool,
) -> (Vec<String>, Result<(), String>) {
    let mut there: Vec<String> = taken.iter().map(|name| format!("/trash/files/{name}")).collect();
    there.push("/work/notes".to_string());
    let entry = placed("notes", &[]);
    let mut trashing = Trashing::start(path("/work/notes"), entry);
    let outcome = |done: bool, reason: &str| if done { Ok(()) } else { Err(reason.to_string()) };
    loop {
        let mut rename = |from: &PathBuf, to: &PathBuf| {
            there.retain(|name| name != &from.display(Platform::Linux));
            assert!(!there.contains(&to.display(Platform::Linux)), "nothing is replaced");
            there.push(to.display(Platform::Linux));
        };
        let reply = match trashing.request() {
            TrashRequest::Look(place) => TrashReply::Taken(there.contains(&place.display(Platform::Linux))),
            TrashRequest::Move { from, to } => {
                if can_move {
                    rename(&from, &to);
                }
                TrashReply::Moved(outcome(can_move, "in use"))
            }
            TrashRequest::Record(place) => {
                if can_record {
                    there.push(place.display(Platform::Linux));
                }
                TrashReply::Recorded(outcome(can_record, "disk full"))
            }
            TrashRequest::PutBack { from, to } => {
                if can_put_back {
                    rename(&from, &to);
                }
                TrashReply::PutBack(can_put_back)
            }
            TrashRequest::Done => return (there, Ok(())),
            TrashRequest::Failed(reason) => return (there, Err(reason)),
        };
        trashing = trashing.step(reply);
    }
}

#[test]
fn a_failed_move_leaves_the_file_where_it_was() {
    let (there, ended) = trashed(&["notes"], true, true, true);
    assert_eq!(ended, Ok(()));
    assert_eq!(
        there,
        [
            "/trash/files/notes",
            "/trash/files/notes.1",
            "/trash/info/notes.1.trashinfo"
        ]
    );
    let (there, ended) = trashed(&["notes"], false, true, true);
    assert_eq!(ended, Err("in use".to_string()));
    assert_eq!(there, ["/trash/files/notes", "/work/notes"]);
    let (there, ended) = trashed(&["notes"], true, false, true);
    assert_eq!(ended, Err("disk full".to_string()));
    assert_eq!(there, ["/trash/files/notes", "/work/notes"]);
    let (there, ended) = trashed(&[], true, false, false);
    assert_eq!(ended, Err("disk full".to_string()), "the first reason stays");
    assert_eq!(there, ["/trash/files/notes"]);
}

#[test]
fn a_trash_without_a_free_name_takes_nothing() {
    let mut entry = placed("notes", &[]);
    entry.taken = u64::MAX;
    let trashing = Trashing::start(path("/work/notes"), entry).step(TrashReply::Taken(true));
    assert!(matches!(
        trashing.request(),
        TrashRequest::Failed(reason) if reason == "every name in the trash is taken"
    ));
}

#[test]
fn the_xdg_trash_moves_a_file_and_records_where_it_came_from() {
    let file = path("/work/doomed.bin");
    let entry = trash_into(Platform::Linux, &file, &path("/trash"), 7, 7).expect("trashed");
    assert_eq!(entry.file_path(), path("/trash/files/doomed.bin"));
    assert_eq!(entry.info_path(), path("/trash/info/doomed.bin.trashinfo"));
    let info = trash_info_now(&file);
    assert!(info.starts_with("[Trash Info]\nPath="), "{info}");
    assert!(info.contains("doomed.bin"));
    assert!(info.contains("DeletionDate="));
    let (files, infos) = trash_layout(&path("/trash"));
    assert_eq!((files, infos), (path("/trash/files"), path("/trash/info")));
}

#[test]
fn a_trash_info_path_is_restorable() {
    let file = path("/work/with space.bin");
    let info = trash_info(&file, "2024-01-02T03:04:05");
    assert_eq!(
        info,
        "[Trash Info]\nPath=/work/with%20space.bin\nDeletionDate=2024-01-02T03:04:05\n"
    );
    let recorded = info
        .lines()
        .find_map(|line| line.strip_prefix("Path="))
        .expect("a path");
    assert_eq!(recorded, percent_encode("/work/with space.bin"));
    assert!(recorded.ends_with("with%20space.bin"));
}

#[test]
fn a_deletion_date_is_local_time_to_the_second() {
    let date = deletion_date();
    assert_eq!(date.len(), "2024-01-02T03:04:05".len(), "{date}");
    for (at, byte) in date.bytes().enumerate() {
        match at {
            4 | 7 => assert_eq!(byte, b'-', "{date}"),
            10 => assert_eq!(byte, b'T', "{date}"),
            13 | 16 => assert_eq!(byte, b':', "{date}"),
            _ => assert!(byte.is_ascii_digit(), "{date}"),
        }
    }
}

#[test]
fn what_the_home_trash_cannot_take_is_refused() {
    let refused = |platform: Platform, text: &str, device: u64| {
        trash_into(platform, &path(text), &path("/trash"), device, 1).expect_err("refused")
    };
    assert_eq!(
        refused(Platform::Linux, "/work/x", 2),
        "on a different filesystem than the trash; use permanent deletion"
    );
    assert_eq!(
        refused(Platform::Linux, "/work/..", 1),
        "refusing to trash a path without a name"
    );
    assert_eq!(
        refused(Platform::Windows, "/work/x", 1),
        "the XDG trash is only implemented on Unix"
    );
}

#[test]
fn a_trash_tool_is_called_with_the_path_after_a_separator() {
    // A path that would be an option if the separator were missing.
    let call = tool_call("fake-trash-put", &[], &path("-rf"));
    assert_eq!(call.program, "fake-trash-put");
    assert_eq!(call.arguments, vec![b"--".to_vec(), b"-rf".to_vec()]);
    let call = tool_call("gio", &["trash"], &path("/a"));
    assert_eq!(
        call.arguments,
        vec![b"trash".to_vec(), b"--".to_vec(), b"/a".to_vec()]
    );
}

#[test]
fn a_failing_trash_tool_reports_its_stderr() {
    let error = tool_outcome("angry-trash-put", false, b"no trash here\n").expect_err("it failed");
    assert!(error.contains("no trash here"), "{error}");
    assert_eq!(tool_outcome("quiet", true, b"anything"), Ok(()));
    let silent = tool_outcome("silent", false, b" \n").expect_err("it failed");
    assert!(silent.contains("silent"), "{silent}");
}

#[test]
fn detection_prefers_a_tool_this_machine_has() {
    let backend = detect_trash_backend(Platform::Linux, true, true, true);
    assert_eq!(backend, TrashBackend::TrashPut);
    assert!(backend.is_available());
    let detected =
        |gio: bool, home: bool| detect_trash_backend(Platform::Linux, false, gio, home);
    assert_eq!(detected(true, true), TrashBackend::Gio);
    assert_eq!(detected(false, true), TrashBackend::XdgHome);
    assert_eq!(detected(false, false), TrashBackend::Unavailable);
    assert!(!TrashBackend::default().is_available());
}

#[test]
fn windows_trashes_into_the_recycle_bin() {
    let backend = detect_trash_backend(Platform::Windows, false, false, false);
    assert_eq!(backend, TrashBackend::RecycleBin);
    assert!(backend.is_available());
}

#[test]
fn macos_always_uses_the_system_trash() {
    // Whatever Homebrew put on PATH: its trash tools write a trash Finder
    // never shows.
    assert_eq!(
        detect_trash_backend(Platform::MacOs, true, true, true),
        TrashBackend::MacOs
    );
    assert!(TrashBackend::MacOs.is_available());
}

#[test]
fn a_name_that_is_not_utf8_is_refused_before_the_trash_sees_it() {
    let odd = PathBuf::unix(b"/tmp/not-\xff-utf8".to_vec());
    let mounts = Ok(vec![path("/")]);
    let error = move_to_trash(Platform::MacOs, &odd, TrashBackend::MacOs, &mounts, false, None)
        .expect_err("refused");
    assert!(error.contains("UTF-8"), "{error}");
    let fine = move_to_trash(
        Platform::MacOs,
        &path("/tmp/é"),
        TrashBackend::MacOs,
        &mounts,
        false,
        None,
    );
    assert!(matches!(fine, Ok(TrashMove::MacOs)));
}

#[test]
fn each_backend_moves_in_its_own_way() {
    let mounts = Ok(vec![path("/")]);
    let moved = |platform: Platform, backend: TrashBackend, trash: Option<&str>| {
        move_to_trash(
            platform,
            &path("/a/b"),
            backend,
            &mounts,
            false,
            trash.map(PathBuf::of),
        )
    };
    let linux = |backend: TrashBackend, trash: Option<&str>| moved(Platform::Linux, backend, trash);
    assert!(matches!(
        linux(TrashBackend::TrashPut, None),
        Ok(TrashMove::Tool(call)) if call.program == "trash-put" && call.arguments.len() == 2
    ));
    assert!(matches!(
        linux(TrashBackend::Gio, None),
        Ok(TrashMove::Tool(call)) if call.program == "gio" && call.arguments[0] == b"trash"
    ));
    assert!(matches!(
        linux(TrashBackend::XdgHome, Some("/t")),
        Ok(TrashMove::Xdg(dir)) if dir == path("/t")
    ));
    assert_eq!(
        linux(TrashBackend::XdgHome, None).expect_err("no home"),
        "neither XDG_DATA_HOME nor HOME is set"
    );
    assert_eq!(
        linux(TrashBackend::MacOs, None).expect_err("not macOS"),
        "the macOS Trash only exists on macOS"
    );
    assert_eq!(
        linux(TrashBackend::RecycleBin, None).expect_err("not Windows"),
        "the Recycle Bin is only on Windows"
    );
    assert_eq!(
        linux(TrashBackend::Unavailable, None).expect_err("nothing"),
        "no trash tool is installed; use permanent deletion instead"
    );
    assert!(matches!(
        moved(Platform::Windows, TrashBackend::RecycleBin, None),
        Ok(TrashMove::Recycle)
    ));
    assert_eq!(
        moved(Platform::Windows, TrashBackend::XdgHome, Some("/t")).expect_err("Unix only"),
        "the XDG trash is only implemented on Unix"
    );
    let blocked = move_to_trash(
        Platform::Linux,
        &path("/a"),
        TrashBackend::TrashPut,
        &Ok(vec![path("/"), path("/a/b")]),
        false,
        None,
    );
    assert_eq!(
        blocked.expect_err("a mount inside"),
        "refusing to remove mounted filesystem /a/b at or inside /a"
    );
}

#[test]
fn the_home_trash_follows_the_data_directory() {
    let home = path("/home/tobi");
    let data = path("/data");
    let dir = |data: Option<&PathBuf>, home: Option<&PathBuf>| {
        home_trash_dir(Platform::Linux, data, home).map(|dir| dir.display(Platform::Linux))
    };
    assert_eq!(dir(Some(&data), Some(&home)).as_deref(), Some("/data/Trash"));
    assert_eq!(
        dir(None, Some(&home)).as_deref(),
        Some("/home/tobi/.local/share/Trash")
    );
    assert_eq!(dir(None, None), None);
}

#[test]
fn a_program_is_looked_for_along_the_path() {
    let places: Vec<String> = which(b"/usr/bin:/opt/x/bin/", "gio")
        .iter()
        .map(|place| place.display(Platform::Linux))
        .collect();
    assert_eq!(places, ["/usr/bin/gio", "/opt/x/bin/gio"]);
}

#[test]
fn a_refusal_of_the_macos_trash_says_what_to_do() {
    let said = macos_trash_failed("broken");
    assert!(said.contains("broken"), "{said}");
    assert_ne!(said, "broken");
}

/// What a percent-encoded text stands for.
fn decoded(text: &str) -> Vec<u8> {
    let mut bytes = Vec::new();
    let mut rest = text;
    while let Some(first) = rest.chars().next() {
        if first == '%' {
            bytes.push(u8::from_str_radix(&rest[1..3], 16).expect("two digits"));
            rest = &rest[3..];
        } else {
            bytes.push(first as u8);
            rest = &rest[1..];
        }
    }
    bytes
}

#[test]
fn an_encoded_path_is_one_line_and_decodes_to_itself() {
    for text in ["/a b", "/%41", "/é\n\r\t", "", "/\u{1f600}~._-"] {
        let encoded = percent_encode(text);
        assert_eq!(decoded(&encoded), text.as_bytes());
        assert!(!encoded.chars().any(char::is_control), "{encoded}");
    }
}
