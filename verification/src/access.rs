//! What the operating system keeps private from a scan, and where the home
//! directory is.
//!
//! On macOS a process without Full Disk Access is refused parts of the home
//! directory with `EPERM`, silently. A disk tool that only counts those as
//! errors leaves the user guessing, so the app asks once whether access is
//! granted and, if not, says why folders were unreadable and where to fix
//! it.

use vstd::prelude::*;

use crate::path;
use crate::path::{Component, Part, PathBuf, PathView};
use crate::platform::Platform;

verus! {

/// System Settings, opened at Privacy & Security, Full Disk Access.
pub const FULL_DISK_ACCESS_SETTINGS: &'static str = "x-apple.systempreferences:com.apple.preference.security?Privacy_AllFiles";

/// What opening the privacy database for reading came to.
#[derive(Clone, Copy, Debug, PartialEq, Eq, Structural)]
pub enum Opened {
    Yes,
    PermissionDenied,
    OtherError,
}

/// Where the privacy database is.
pub open spec fn database_place(home: PathView) -> PathView {
    path::joined(
        Platform::MacOs,
        home,
        seq![
            Part::Name(vstd::utf8::encode_utf8("Library"@)),
            Part::Name(vstd::utf8::encode_utf8("Application Support"@)),
            Part::Name(vstd::utf8::encode_utf8("com.apple.TCC"@)),
            Part::Name(vstd::utf8::encode_utf8("TCC.db"@)),
        ],
    )
}

/// Where the privacy database is. It is itself protected by Full Disk
/// Access, so opening it for reading is the test. It never shows a prompt,
/// unlike touching Desktop or Documents would.
pub fn privacy_database(home: &PathBuf) -> (r: PathBuf)
    ensures
        r@ == database_place(home@),
{
    let below: Vec<Component> = vec![
        Component::Normal(vstd::slice::slice_to_vec("Library".as_bytes())),
        Component::Normal(vstd::slice::slice_to_vec("Application Support".as_bytes())),
        Component::Normal(vstd::slice::slice_to_vec("com.apple.TCC".as_bytes())),
        Component::Normal(vstd::slice::slice_to_vec("TCC.db".as_bytes())),
    ];
    assert(below.deep_view() =~= seq![
        Part::Name(vstd::utf8::encode_utf8("Library"@)),
        Part::Name(vstd::utf8::encode_utf8("Application Support"@)),
        Part::Name(vstd::utf8::encode_utf8("com.apple.TCC"@)),
        Part::Name(vstd::utf8::encode_utf8("TCC.db"@)),
    ]);
    home.join(Platform::MacOs, &below)
}

/// Whether this process has Full Disk Access, where opening
/// [`privacy_database`] came to `opened`: `Some(false)` when it is refused,
/// `None` where the question does not apply or cannot be answered.
pub fn full_disk_access(platform: Platform, opened: Opened) -> (r: Option<bool>)
    ensures
        r == match (platform, opened) {
            (Platform::MacOs, Opened::Yes) => Some(true),
            (Platform::MacOs, Opened::PermissionDenied) => Some(false),
            _ => None,
        },
{
    match platform {
        Platform::MacOs => match opened {
            Opened::Yes => Some(true),
            Opened::PermissionDenied => Some(false),
            Opened::OtherError => None,
        },
        _ => None,
    }
}

/// The variable that names the current user's home directory.
pub open spec fn home_name(platform: Platform) -> Seq<char> {
    match platform {
        Platform::Windows => "USERPROFILE"@,
        _ => "HOME"@,
    }
}

/// The variable that names the current user's home directory.
pub fn home_variable(platform: Platform) -> (r: &'static str)
    ensures
        r@ == home_name(platform),
{
    match platform {
        Platform::Windows => "USERPROFILE",
        _ => "HOME",
    }
}

/// The current user's home directory on Linux or macOS, from the value of
/// [`home_variable`].
pub fn home_dir(value: Option<Vec<u8>>) -> (r: Option<PathBuf>)
    ensures
        match value {
            Some(bytes) => r matches Some(home) && home@ == path::unix_path(bytes@),
            None => r is None,
        },
{
    match value {
        Some(bytes) => Some(PathBuf::unix(bytes)),
        None => None,
    }
}

} // verus!
