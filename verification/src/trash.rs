//! Moving to the desktop trash: which tool does it, how it is called, and
//! the layout of the built-in one.
//!
//! On macOS that is always the system Trash, and on Windows the Recycle Bin.
//! Elsewhere it is `trash-put`, then `gio trash`, then the XDG layout
//! written here. The backend is detected once and named, so the user knows
//! what actually happens.

use vstd::prelude::*;

use crate::mounts;
use crate::path;
use crate::path::{Component, Part, PathBuf, PathView};
use crate::platform::Platform;
use crate::text;

verus! {

// ---------------------------------------------------------------------
// Backends.
// ---------------------------------------------------------------------

/// Which tool, if any, moves files to the desktop trash.
#[derive(Clone, Copy, Debug, PartialEq, Eq, Structural)]
pub enum TrashBackend {
    /// The macOS Trash, through `NSFileManager`: the same move as Finder's
    /// Move to Trash, into the Trash of the volume the item is on.
    MacOs,
    /// `trash-put` from trash-cli.
    TrashPut,
    /// `gio trash`, present anywhere `GLib` is installed.
    Gio,
    /// The XDG trash directory, implemented here.
    XdgHome,
    /// The Windows Recycle Bin, through the shell's own file operation.
    RecycleBin,
    /// No way to move files to a trash on this machine.
    Unavailable,
}

impl Default for TrashBackend {
    fn default() -> (r: Self)
        ensures
            r == TrashBackend::Unavailable,
    {
        TrashBackend::Unavailable
    }
}

impl TrashBackend {
    pub fn is_available(self) -> (r: bool)
        ensures
            r == (self != TrashBackend::Unavailable),
    {
        match self {
            TrashBackend::MacOs
            | TrashBackend::TrashPut
            | TrashBackend::Gio
            | TrashBackend::XdgHome
            | TrashBackend::RecycleBin => true,
            TrashBackend::Unavailable => false,
        }
    }

    pub fn label(self) -> (r: &'static str)
        ensures
            r@ == match self {
                TrashBackend::MacOs => "the Trash"@,
                TrashBackend::TrashPut => "trash-put"@,
                TrashBackend::Gio => "gio trash"@,
                TrashBackend::XdgHome => "XDG trash"@,
                TrashBackend::RecycleBin => "the Recycle Bin"@,
                TrashBackend::Unavailable => "no trash tool found"@,
            },
    {
        match self {
            TrashBackend::MacOs => "the Trash",
            TrashBackend::TrashPut => "trash-put",
            TrashBackend::Gio => "gio trash",
            TrashBackend::XdgHome => "XDG trash",
            TrashBackend::RecycleBin => "the Recycle Bin",
            TrashBackend::Unavailable => "no trash tool found",
        }
    }

    pub fn detail(self) -> (r: &'static str)
        ensures
            r@ == match self {
                TrashBackend::MacOs => "the same Trash as Finder, on the item's own disk"@,
                TrashBackend::TrashPut => "uses trash-cli, the same trash as your file manager"@,
                TrashBackend::Gio => "uses GLib, the same trash as your file manager"@,
                TrashBackend::XdgHome => "moves into ~/.local/share/Trash on the same volume"@,
                TrashBackend::RecycleBin => "the same Recycle Bin as File Explorer"@,
                TrashBackend::Unavailable => "install trash-cli or keep deleting permanently"@,
            },
    {
        match self {
            TrashBackend::MacOs => "the same Trash as Finder, on the item's own disk",
            TrashBackend::TrashPut => "uses trash-cli, the same trash as your file manager",
            TrashBackend::Gio => "uses GLib, the same trash as your file manager",
            TrashBackend::XdgHome => "moves into ~/.local/share/Trash on the same volume",
            TrashBackend::RecycleBin => "the same Recycle Bin as File Explorer",
            TrashBackend::Unavailable => "install trash-cli or keep deleting permanently",
        }
    }
}

/// The best trash backend for a machine that has these.
///
/// Windows always has its Recycle Bin. On macOS the system Trash is always
/// there, and the Linux tools are not a substitute: Homebrew's `trash-put`
/// writes the XDG layout, which Finder never shows, so their files would
/// look recoverable and not be. Elsewhere `trash-put` comes first, then
/// `gio`, then the XDG trash of a home directory.
pub fn detect_trash_backend(
    platform: Platform,
    has_trash_put: bool,
    has_gio: bool,
    has_home_trash: bool,
) -> (r: TrashBackend)
    ensures
        r == match platform {
            Platform::Windows => TrashBackend::RecycleBin,
            Platform::MacOs => TrashBackend::MacOs,
            Platform::Linux => if has_trash_put {
                TrashBackend::TrashPut
            } else if has_gio {
                TrashBackend::Gio
            } else if has_home_trash {
                TrashBackend::XdgHome
            } else {
                TrashBackend::Unavailable
            },
        },
{
    match platform {
        Platform::Windows => TrashBackend::RecycleBin,
        Platform::MacOs => TrashBackend::MacOs,
        Platform::Linux => {
            if has_trash_put {
                TrashBackend::TrashPut
            } else if has_gio {
                TrashBackend::Gio
            } else if has_home_trash {
                TrashBackend::XdgHome
            } else {
                TrashBackend::Unavailable
            }
        },
    }
}

/// Where the trash of a home directory is: `Trash` in the XDG data
/// directory, which is `.local/share` in the home directory unless it is set.
pub open spec fn trash_dir(
    platform: Platform,
    data_home: Option<PathView>,
    home: Option<PathView>,
) -> Option<PathView> {
    let trash = seq![Part::Name(vstd::utf8::encode_utf8("Trash"@))];
    match data_home {
        Some(data) => Some(path::joined(platform, data, trash)),
        None => match home {
            Some(home) => Some(
                path::joined(
                    platform,
                    path::joined(
                        platform,
                        home,
                        seq![
                            Part::Name(vstd::utf8::encode_utf8(".local"@)),
                            Part::Name(vstd::utf8::encode_utf8("share"@)),
                        ],
                    ),
                    trash,
                ),
            ),
            None => None,
        },
    }
}

/// Where the trash of a home directory is, given `XDG_DATA_HOME` and `HOME`.
pub fn home_trash_dir(
    platform: Platform,
    data_home: Option<&PathBuf>,
    home: Option<&PathBuf>,
) -> (r: Option<PathBuf>)
    ensures
        (match r {
            Some(trash) => Some(trash@),
            None => None,
        }) == trash_dir(
            platform,
            match data_home {
                Some(data) => Some(data@),
                None => None,
            },
            match home {
                Some(home) => Some(home@),
                None => None,
            },
        ),
{
    let trash = "Trash";
    match data_home {
        Some(data) => Some(data.join_name(platform, trash.as_bytes())),
        None => match home {
            Some(home) => {
                let share: Vec<Component> = vec![
                    Component::Normal(vstd::slice::slice_to_vec(".local".as_bytes())),
                    Component::Normal(vstd::slice::slice_to_vec("share".as_bytes())),
                ];
                assert(share.deep_view() =~= seq![
                    Part::Name(vstd::utf8::encode_utf8(".local"@)),
                    Part::Name(vstd::utf8::encode_utf8("share"@)),
                ]);
                Some(home.join(platform, &share).join_name(platform, trash.as_bytes()))
            },
            None => None,
        },
    }
}

/// Where a program may be: in each directory the value of `PATH` names, with
/// colons between.
pub open spec fn program_places(value: Seq<u8>, program: Seq<char>) -> Seq<PathView> {
    text::pieces(value, 58u8).map_values(
        |dir: Seq<u8>|
            path::joined(
                Platform::Linux,
                path::unix_path(dir),
                seq![Part::Name(vstd::utf8::encode_utf8(program))],
            ),
    )
}

/// Where `program` may be, by the value of `PATH`: it is there if one of
/// these is a file.
pub fn which(value: &[u8], program: &str) -> (r: Vec<PathBuf>)
    ensures
        r.deep_view() == program_places(value@, program@),
{
    let dirs = text::split_all(value, 58u8);
    let ghost all = text::pieces(value@, 58u8);
    let mut places: Vec<PathBuf> = Vec::new();
    let mut i: usize = 0;
    while i < dirs.len()
        invariant
            i <= dirs@.len(),
            dirs@.len() == all.len(),
            forall|k: int| 0 <= k < dirs@.len() ==> (#[trigger] dirs@[k])@ == all[k],
            places@.len() == i,
            forall|k: int|
                0 <= k < i ==> (#[trigger] places@[k])@ == path::joined(
                    Platform::Linux,
                    path::unix_path(all[k]),
                    seq![Part::Name(vstd::utf8::encode_utf8(program@))],
                ),
        decreases dirs@.len() - i,
    {
        let dir = PathBuf::unix(path::copy_bytes(&dirs[i]));
        places.push(dir.join_name(Platform::Linux, program.as_bytes()));
        i += 1;
    }
    assert(places.deep_view() =~= program_places(value@, program@));
    places
}

// ---------------------------------------------------------------------
// Calling a tool.
// ---------------------------------------------------------------------

/// A trash tool to run on one path.
#[derive(Debug)]
pub struct ToolCall {
    pub program: String,
    /// What comes after the program's name, in order.
    pub arguments: Vec<Vec<u8>>,
}

/// The arguments a tool is given: its own, a separator, and the path, so
/// that a file named `-rf` is read as a path and never as an option.
pub open spec fn tool_arguments(own: Seq<Seq<char>>, path: PathView) -> Seq<Seq<u8>> {
    own.map_values(|word: Seq<char>| vstd::utf8::encode_utf8(word)).push(
        vstd::utf8::encode_utf8("--"@),
    ).push(path.text)
}

/// The call of `program` with its `own` arguments on `path`.
pub fn tool_call(program: &str, own: &[&str], path: &PathBuf) -> (r: ToolCall)
    ensures
        r.program@ == program@,
        r.arguments.deep_view() == tool_arguments(own@.map_values(|word: &str| word@), path@),
{
    let ghost words = own@.map_values(|word: &str| word@);
    let mut arguments: Vec<Vec<u8>> = Vec::new();
    let mut i: usize = 0;
    while i < own.len()
        invariant
            i <= own@.len(),
            words == own@.map_values(|word: &str| word@),
            arguments@.len() == i,
            forall|k: int|
                0 <= k < i ==> (#[trigger] arguments@[k])@ == vstd::utf8::encode_utf8(words[k]),
        decreases own@.len() - i,
    {
        arguments.push(vstd::slice::slice_to_vec(own[i].as_bytes()));
        i += 1;
    }
    arguments.push(vstd::slice::slice_to_vec("--".as_bytes()));
    arguments.push(path::copy_bytes(&path.text));
    proof {
        let all = tool_arguments(words, path@);
        assert forall|k: int| 0 <= k < all.len() implies arguments.deep_view()[k] == #[trigger] all[k] by {
            assert(arguments@[k]@ =~= all[k]);
            assert(arguments@[k].deep_view() =~= arguments@[k]@);
        }
        assert(arguments.deep_view() =~= all);
    }
    ToolCall { program: program.to_owned(), arguments }
}

/// What a tool's run comes to, given whether it succeeded and what it wrote
/// to its error output.
pub fn tool_outcome(program: &str, success: bool, stderr: &[u8]) -> (r: Result<(), String>)
    ensures
        match r {
            Ok(_) => success,
            Err(reason) => !success && reason@ == program@ + " failed: "@ + text::trimmed(
                text::shown(stderr@),
            ),
        },
{
    if success {
        return Ok(());
    }
    let shown = text::chars_of(text::show(stderr).as_str());
    let words = text::string_of(text::trim(shown.as_slice()).as_slice());
    let mut reason = program.to_owned();
    reason.append(" failed: ");
    reason.append(words.as_str());
    Err(reason)
}

// ---------------------------------------------------------------------
// Moving one path to the trash.
// ---------------------------------------------------------------------

/// What moves a path to the trash.
#[derive(Debug)]
pub enum TrashMove {
    /// Run this tool.
    Tool(ToolCall),
    /// Move it into the XDG trash directory here.
    Xdg(PathBuf),
    /// Hand it to the macOS Trash.
    MacOs,
    /// Hand it to the Recycle Bin.
    Recycle,
}

/// Why a path cannot be moved to the trash, if it cannot.
pub open spec fn trash_refusal(
    platform: Platform,
    path: PathView,
    backend: TrashBackend,
    mounts: mounts::MountsView,
    mount_point: bool,
    trash: Option<PathView>,
) -> Option<Seq<char>> {
    let boundary = mounts::boundary_refusal(path, mounts, mount_point);
    if platform is Linux && boundary is Some {
        boundary
    } else {
        match backend {
            TrashBackend::TrashPut | TrashBackend::Gio => None,
            TrashBackend::XdgHome => if trash is None {
                Some("neither XDG_DATA_HOME nor HOME is set"@)
            } else if platform is Windows {
                Some("the XDG trash is only implemented on Unix"@)
            } else {
                None
            },
            TrashBackend::MacOs => if !(platform is MacOs) {
                Some("the macOS Trash only exists on macOS"@)
            } else if !vstd::utf8::valid_utf8(path.text) {
                Some(
                    "the name is not UTF-8, which the Trash cannot take; use permanent deletion"@,
                )
            } else {
                None
            },
            TrashBackend::RecycleBin => if !(platform is Windows) {
                Some("the Recycle Bin is only on Windows"@)
            } else {
                None
            },
            TrashBackend::Unavailable => Some(
                "no trash tool is installed; use permanent deletion instead"@,
            ),
        }
    }
}

/// Whether `way` is how `backend` moves the path to the trash.
pub open spec fn moves_by(
    way: TrashMove,
    path: PathView,
    backend: TrashBackend,
    trash: Option<PathView>,
) -> bool {
    match backend {
        TrashBackend::TrashPut => way matches TrashMove::Tool(call) && call.program@
            == "trash-put"@ && call.arguments.deep_view() == tool_arguments(seq![], path),
        TrashBackend::Gio => way matches TrashMove::Tool(call) && call.program@ == "gio"@
            && call.arguments.deep_view() == tool_arguments(seq!["trash"@], path),
        TrashBackend::XdgHome => way matches TrashMove::Xdg(dir) && trash == Some(dir@),
        TrashBackend::MacOs => way is MacOs,
        TrashBackend::RecycleBin => way is Recycle,
        TrashBackend::Unavailable => false,
    }
}

/// How to move one path to the desktop trash. On Linux nothing mounted on it
/// or inside it may go with it, so `mounts` are those read just now.
///
/// The macOS Trash takes names as text: a name that is not UTF-8 is refused
/// rather than handed over, since it would be encoded into a different path.
pub fn move_to_trash(
    platform: Platform,
    path: &PathBuf,
    backend: TrashBackend,
    mounts: &Result<Vec<PathBuf>, String>,
    mount_point: bool,
    trash: Option<PathBuf>,
) -> (r: Result<TrashMove, String>)
    ensures
        match r {
            Ok(way) => trash_refusal(
                platform,
                path@,
                backend,
                mounts::mounts_view(*mounts),
                mount_point,
                trash.deep_view(),
            ) is None && moves_by(way, path@, backend, trash.deep_view()),
            Err(reason) => trash_refusal(
                platform,
                path@,
                backend,
                mounts::mounts_view(*mounts),
                mount_point,
                trash.deep_view(),
            ) == Some(reason@),
        },
{
    if let Platform::Linux = platform {
        if let Err(reason) = mounts::ensure_linux_mount_boundaries(path, mounts, mount_point) {
            return Err(reason);
        }
    }
    match backend {
        TrashBackend::TrashPut => {
            let own: Vec<&str> = Vec::new();
            assert(own@.map_values(|word: &str| word@) =~= Seq::<Seq<char>>::empty());
            Ok(TrashMove::Tool(tool_call("trash-put", own.as_slice(), path)))
        },
        TrashBackend::Gio => {
            let own: Vec<&str> = vec!["trash"];
            assert(own@.map_values(|word: &str| word@) =~= seq!["trash"@]);
            Ok(TrashMove::Tool(tool_call("gio", own.as_slice(), path)))
        },
        TrashBackend::XdgHome => match trash {
            None => Err("neither XDG_DATA_HOME nor HOME is set".to_owned()),
            Some(dir) => match platform {
                Platform::Windows => Err("the XDG trash is only implemented on Unix".to_owned()),
                _ => Ok(TrashMove::Xdg(dir)),
            },
        },
        TrashBackend::MacOs => match platform {
            Platform::MacOs => {
                if !text::is_utf8(path.text.as_slice()) {
                    return Err(
                        "the name is not UTF-8, which the Trash cannot take; use permanent deletion".to_owned(),
                    );
                }
                Ok(TrashMove::MacOs)
            },
            _ => Err("the macOS Trash only exists on macOS".to_owned()),
        },
        TrashBackend::RecycleBin => match platform {
            Platform::Windows => Ok(TrashMove::Recycle),
            _ => Err("the Recycle Bin is only on Windows".to_owned()),
        },
        TrashBackend::Unavailable => Err(
            "no trash tool is installed; use permanent deletion instead".to_owned(),
        ),
    }
}

/// What is said when the macOS Trash refuses a path.
pub fn macos_trash_failed(error: &str) -> (r: String)
    ensures
        r@ == "could not move to the Trash ("@ + error@
            + "); network and read-only disks have none, so use permanent deletion there"@,
{
    let mut reason = "could not move to the Trash (".to_owned();
    reason.append(error);
    reason.append("); network and read-only disks have none, so use permanent deletion there");
    reason
}

/// Where a tool is told to put a path, the path comes last and right after
/// the separator: no name is ever read as an option.
pub proof fn lemma_path_after_separator(own: Seq<Seq<char>>, path: PathView)
    ensures
        ({
            let all = tool_arguments(own, path);
            &&& all.len() == own.len() + 2
            &&& all.last() == path.text
            &&& all[all.len() - 2] == vstd::utf8::encode_utf8("--"@)
        }),
{
}

} // verus!
