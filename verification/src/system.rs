//! Trees the operating system owns, which are never removed by hand.

use vstd::prelude::*;

use crate::guards;
use crate::lists;
use crate::path;
use crate::path::{Component, Part, PathBuf, PathView, PrefixPart};
use crate::platform::Platform;
use crate::text;

verus! {

/// Trees the operating system owns. A whole-disk scan shows them, because
/// they are part of what fills the disk, but files there belong to packages
/// and removing them by hand breaks the system. Refused even where
/// permissions would allow it, and even inside them.
///
/// One list for Linux and macOS: a macOS tree never exists on Linux, and the
/// other way round, so the extra entries cost nothing. On macOS `/etc`,
/// `/var` and `/tmp` are links into `/private`, which a whole-disk scan
/// reaches by its real name. `/Applications` is left out on purpose: moving
/// an app to the Trash is how macOS uninstalls it, and the apps macOS ships
/// live on the read-only system volume anyway.
pub open spec fn unix_system_trees() -> Seq<Seq<char>> {
    seq![
        "/bin"@,
        "/boot"@,
        "/dev"@,
        "/etc"@,
        "/lib"@,
        "/lib64"@,
        "/lib32"@,
        "/libx32"@,
        "/nix/store"@,
        "/gnu/store"@,
        "/proc"@,
        "/run"@,
        "/sbin"@,
        "/sys"@,
        "/usr"@,
        "/var/lib"@,
        "/efi"@,
        "/home/linuxbrew/.linuxbrew"@,
        "/System"@,
        "/Library"@,
        "/private"@,
        "/cores"@,
        "/opt/homebrew"@,
        "/Network"@,
    ]
}

/// What Windows keeps at the top of its drive: itself, installed programs
/// and their machine-wide data, restore points, recovery, booting, and its
/// memory (turned off in Settings, never deleted by hand).
pub open spec fn windows_system_names() -> Seq<Seq<char>> {
    seq![
        "Windows"@,
        "Program Files"@,
        "Program Files (x86)"@,
        "ProgramData"@,
        "System Volume Information"@,
        "$Recycle.Bin"@,
        "Recovery"@,
        "Boot"@,
        "bootmgr"@,
        "pagefile.sys"@,
        "hiberfil.sys"@,
        "swapfile.sys"@,
    ]
}

/// Where Windows and its programs are, from the environment.
#[derive(Debug)]
pub struct WindowsPlaces {
    /// The values of `SystemRoot`, `ProgramFiles`, `ProgramFiles(x86)`,
    /// `ProgramW6432` and `ProgramData`, those that are set.
    pub set: Vec<PathBuf>,
    /// The root of the drive Windows runs from, such as `C:\`.
    pub drive: PathBuf,
}

/// The variables [`WindowsPlaces::set`] holds the values of.
pub fn windows_variables() -> (r: Vec<&'static str>)
    ensures
        r@.len() == 5,
        r@[0]@ == "SystemRoot"@,
        r@[1]@ == "ProgramFiles"@,
        r@[2]@ == "ProgramFiles(x86)"@,
        r@[3]@ == "ProgramW6432"@,
        r@[4]@ == "ProgramData"@,
{
    vec!["SystemRoot", "ProgramFiles", "ProgramFiles(x86)", "ProgramW6432", "ProgramData"]
}

/// The root of the drive Windows runs from, as text: the value of
/// `SystemDrive`, or `C:`, with a separator after it, since `C:` alone is
/// the current directory on C:.
pub fn system_drive(value: Option<&str>) -> (r: String)
    ensures
        r@ == (match value {
            Some(drive) => drive@,
            None => "C:"@,
        }).push('\\'),
{
    let mut drive: String = match value {
        Some(drive) => drive.to_owned(),
        None => "C:".to_owned(),
    };
    drive.push('\\');
    drive
}

/// Whether a Windows path with these components is absolute.
pub open spec fn windows_absolute(parts: Seq<Part>) -> bool {
    &&& parts.len() > 0
    &&& parts[0] is Prefix
    &&& (parts[0] matches Part::Prefix(PrefixPart::Disk(_)) ==> parts.len() > 1 && parts[1] is Root)
}

/// The absolute paths of `paths`: an empty or relative value would match
/// too much or nothing at all.
pub open spec fn absolute_ones(paths: Seq<PathView>) -> Seq<PathView>
    decreases paths.len(),
{
    if paths.len() == 0 {
        seq![]
    } else {
        let front = absolute_ones(paths.drop_last());
        if windows_absolute(paths.last().parts) {
            front.push(paths.last())
        } else {
            front
        }
    }
}

/// The trees the operating system owns.
pub open spec fn trees_of(platform: Platform, places: WindowsPlaces) -> Seq<PathView> {
    match platform {
        Platform::Windows => absolute_ones(places.set.deep_view()) + windows_system_names().map_values(
            |name: Seq<char>|
                path::joined(
                    platform,
                    places.drive@,
                    seq![Part::Name(vstd::utf8::encode_utf8(name))],
                ),
        ),
        _ => unix_system_trees().map_values(|tree: Seq<char>| guards::text_path(tree)),
    }
}

/// Whether a Windows path is absolute.
pub fn is_absolute_on_windows(path: &PathBuf) -> (r: bool)
    ensures
        r == windows_absolute(path@.parts),
{
    if path.parts.len() == 0 {
        return false;
    }
    assert(path@.parts[0] == path.parts@[0]@);
    match &path.parts[0] {
        Component::Prefix(prefix) => match prefix {
            path::Prefix::Disk(_) => {
                if path.parts.len() < 2 {
                    return false;
                }
                assert(path@.parts[1] == path.parts@[1]@);
                match &path.parts[1] {
                    Component::RootDir => true,
                    _ => false,
                }
            },
            _ => true,
        },
        _ => false,
    }
}

/// The trees the operating system owns. On Windows they are taken from the
/// environment, so a system elsewhere is still recognized, and the usual
/// places on the system drive besides.
pub fn system_trees(platform: Platform, places: &WindowsPlaces) -> (r: Vec<PathBuf>)
    ensures
        r.deep_view() == trees_of(platform, *places),
{
    let windows: bool = match platform {
        Platform::Windows => true,
        _ => false,
    };
    let mut trees: Vec<PathBuf> = Vec::new();
    if !windows {
        let names: Vec<&'static str> = vec![
            "/bin",
            "/boot",
            "/dev",
            "/etc",
            "/lib",
            "/lib64",
            "/lib32",
            "/libx32",
            "/nix/store",
            "/gnu/store",
            "/proc",
            "/run",
            "/sbin",
            "/sys",
            "/usr",
            "/var/lib",
            "/efi",
            "/home/linuxbrew/.linuxbrew",
            "/System",
            "/Library",
            "/private",
            "/cores",
            "/opt/homebrew",
            "/Network",
        ];
        let ghost all = unix_system_trees();
        assert(names@.map_values(|name: &'static str| name@) =~= all);
        let mut i: usize = 0;
        while i < names.len()
            invariant
                i <= names@.len(),
                names@.len() == all.len(),
                forall|k: int| 0 <= k < all.len() ==> (#[trigger] names@[k])@ == all[k],
                trees@.len() == i,
                forall|k: int| 0 <= k < i ==> (#[trigger] trees@[k])@ == guards::text_path(all[k]),
            decreases names@.len() - i,
        {
            trees.push(PathBuf::of(names[i]));
            i += 1;
        }
        assert(trees.deep_view() =~= all.map_values(|tree: Seq<char>| guards::text_path(tree)));
        return trees;
    }
    let ghost set = places.set.deep_view();
    let mut i: usize = 0;
    assert(trees.deep_view() =~= absolute_ones(set.take(0)));
    while i < places.set.len()
        invariant
            i <= places.set@.len(),
            set == places.set.deep_view(),
            trees.deep_view() == absolute_ones(set.take(i as int)),
        decreases places.set@.len() - i,
    {
        let ghost before = trees.deep_view();
        assert(set.take(i + 1).drop_last() =~= set.take(i as int));
        assert(set.take(i + 1).last() == places.set@[i as int]@);
        if is_absolute_on_windows(&places.set[i]) {
            trees.push(places.set[i].clone());
            assert(trees.deep_view() =~= before.push(set[i as int]));
        }
        i += 1;
    }
    assert(set.take(set.len() as int) =~= set);
    let names: Vec<&'static str> = vec![
        "Windows",
        "Program Files",
        "Program Files (x86)",
        "ProgramData",
        "System Volume Information",
        "$Recycle.Bin",
        "Recovery",
        "Boot",
        "bootmgr",
        "pagefile.sys",
        "hiberfil.sys",
        "swapfile.sys",
    ];
    let ghost all = windows_system_names();
    let ghost f = |name: Seq<char>|
        path::joined(
            platform,
            places.drive@,
            seq![Part::Name(vstd::utf8::encode_utf8(name))],
        );
    let ghost lead = trees.deep_view();
    assert(names@.map_values(|name: &'static str| name@) =~= all);
    assert(lead + all.take(0).map_values(f) =~= lead);
    let mut i: usize = 0;
    while i < names.len()
        invariant
            i <= names@.len(),
            names@.len() == all.len(),
            forall|k: int| 0 <= k < all.len() ==> (#[trigger] names@[k])@ == all[k],
            f == (|name: Seq<char>|
                path::joined(
                    platform,
                    places.drive@,
                    seq![Part::Name(vstd::utf8::encode_utf8(name))],
                )),
            trees.deep_view() == lead + all.take(i as int).map_values(f),
        decreases names@.len() - i,
    {
        let ghost before = trees.deep_view();
        trees.push(places.drive.join_name(platform, names[i].as_bytes()));
        assert(trees.deep_view() =~= before.push(f(all[i as int])));
        assert(lead + all.take(i + 1).map_values(f) =~= before.push(f(all[i as int])));
        i += 1;
    }
    assert(all.take(all.len() as int) =~= all);
    trees
}

/// A system tree: how it is named, and the key it is compared by.
#[derive(Debug)]
pub struct SystemTree {
    pub name: String,
    pub key: PathBuf,
}

/// What a [`SystemTree`] stands for.
pub struct TreeView {
    pub name: Seq<char>,
    pub key: PathView,
}

impl View for SystemTree {
    type V = TreeView;

    open spec fn view(&self) -> TreeView {
        TreeView { name: self.name@, key: self.key@ }
    }
}

impl DeepView for SystemTree {
    type V = TreeView;

    open spec fn deep_view(&self) -> TreeView {
        self@
    }
}

/// A system tree with its key.
pub open spec fn tree_view(platform: Platform, tree: PathView) -> TreeView {
    TreeView {
        name: path::displayed(platform, tree.text),
        key: guards::key(platform, tree.parts),
    }
}

/// The system trees with their guard keys, to be computed once.
pub fn system_tree_keys(platform: Platform, places: &WindowsPlaces) -> (r: Vec<SystemTree>)
    ensures
        r.deep_view() == trees_of(platform, *places).map_values(
            |tree: PathView| tree_view(platform, tree),
        ),
{
    let trees = system_trees(platform, places);
    let mut keys: Vec<SystemTree> = Vec::new();
    let mut i: usize = 0;
    while i < trees.len()
        invariant
            i <= trees@.len(),
            keys@.len() == i,
            forall|k: int| 0 <= k < i ==> (#[trigger] keys@[k])@ == tree_view(platform, trees@[k]@),
        decreases trees@.len() - i,
    {
        let name = trees[i].display(platform);
        let key = guards::guard_key(platform, &trees[i]);
        keys.push(SystemTree { name, key });
        i += 1;
    }
    assert(keys.deep_view() =~= trees.deep_view().map_values(
        |tree: PathView| tree_view(platform, tree),
    ));
    keys
}

/// The name of the system tree the path keyed `key` is in, if any. The home
/// directory is never system, wherever it lives.
pub open spec fn tree_over(
    key: Seq<Part>,
    home: Option<Seq<Part>>,
    trees: Seq<TreeView>,
) -> Option<Seq<char>> {
    if home matches Some(home) && path::inside(key, home) {
        None
    } else {
        match lists::first_where(trees, |tree: TreeView| path::inside(key, tree.key.parts)) {
            Some(tree) => Some(tree.name),
            None => None,
        }
    }
}

/// The name of a system tree strictly inside the path keyed `key`, if any.
pub open spec fn tree_under(key: Seq<Part>, trees: Seq<TreeView>) -> Option<Seq<char>> {
    match lists::first_where(
        trees,
        |tree: TreeView| tree.key.parts != key && path::inside(tree.key.parts, key),
    ) {
        Some(tree) => Some(tree.name),
        None => None,
    }
}

/// The system tree the path keyed `key` is in, if any. The home directory
/// is never system, wherever it lives.
pub fn system_tree<'a>(
    key: &PathBuf,
    home: Option<&PathBuf>,
    trees: &'a [SystemTree],
) -> (r: Option<&'a String>)
    ensures
        (match r {
            Some(name) => Some(name@),
            None => None,
        }) == tree_over(
            key@.parts,
            match home {
                Some(home) => Some(home@.parts),
                None => None,
            },
            trees.deep_view(),
        ),
{
    if let Some(home) = home {
        if key.starts_with(home) {
            return None;
        }
    }
    let ghost all = trees.deep_view();
    let ghost fits = |tree: TreeView| path::inside(key@.parts, tree.key.parts);
    let mut i: usize = 0;
    while i < trees.len()
        invariant
            i <= trees@.len(),
            all == trees.deep_view(),
            fits == (|tree: TreeView| path::inside(key@.parts, tree.key.parts)),
            forall|j: int| 0 <= j < i ==> !fits(#[trigger] all[j]),
            (home matches Some(home) ==> !path::inside(key@.parts, home@.parts)),
        decreases trees@.len() - i,
    {
        assert(all[i as int] == trees@[i as int]@);
        if key.starts_with(&trees[i].key) {
            proof {
                lists::lemma_first_where_skip(all, i as int, fits);
            }
            return Some(&trees[i].name);
        }
        i += 1;
    }
    proof {
        lists::lemma_first_where_skip(all, i as int, fits);
    }
    None
}

/// A system tree strictly inside the path keyed `key`: removing `/opt` takes
/// `/opt/homebrew` with it, and `/var` takes `/var/lib`.
pub fn system_tree_below<'a>(key: &PathBuf, trees: &'a [SystemTree]) -> (r: Option<&'a String>)
    ensures
        (match r {
            Some(name) => Some(name@),
            None => None,
        }) == tree_under(key@.parts, trees.deep_view()),
{
    let ghost all = trees.deep_view();
    let ghost fits = |tree: TreeView|
        tree.key.parts != key@.parts && path::inside(tree.key.parts, key@.parts);
    let mut i: usize = 0;
    while i < trees.len()
        invariant
            i <= trees@.len(),
            all == trees.deep_view(),
            fits == (|tree: TreeView|
                tree.key.parts != key@.parts && path::inside(tree.key.parts, key@.parts)),
            forall|j: int| 0 <= j < i ==> !fits(#[trigger] all[j]),
        decreases trees@.len() - i,
    {
        assert(all[i as int] == trees@[i as int]@);
        if !trees[i].key.same(key) && trees[i].key.starts_with(key) {
            proof {
                lists::lemma_first_where_skip(all, i as int, fits);
            }
            return Some(&trees[i].name);
        }
        i += 1;
    }
    proof {
        lists::lemma_first_where_skip(all, i as int, fits);
    }
    None
}

/// What to use instead, said when a system tree is refused.
pub open spec fn system_tools(platform: Platform) -> Seq<char> {
    match platform {
        Platform::Windows => "use Settings, or the program's own uninstaller"@,
        _ => "remove it with the tool that installed it"@,
    }
}

} // verus!
