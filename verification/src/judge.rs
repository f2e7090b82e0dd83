//! Whether a marked path may be removed: the guards, each with what it says
//! when it refuses.

use vstd::prelude::*;

use crate::guards;
use crate::lists;
use crate::mounts;
use crate::path;
use crate::path::{Component, Part, PathBuf, PathView};
use crate::platform::Platform;
use crate::system;
use crate::system::{SystemTree, TreeView};
use crate::text;

verus! {

// ---------------------------------------------------------------------
// Names Windows reads as other names.
// ---------------------------------------------------------------------

/// A character that numbers a serial or printer port.
pub open spec fn is_port(c: char) -> bool {
    '1' <= c <= '9' || c == '\u{b9}' || c == '\u{b2}' || c == '\u{b3}'
}

/// A name, in lowercase and without extension, that is a device in any
/// directory.
pub open spec fn is_device(stem: Seq<char>) -> bool {
    ||| stem == "con"@
    ||| stem == "prn"@
    ||| stem == "aux"@
    ||| stem == "nul"@
    ||| stem.len() == 4 && (stem.take(3) == "com"@ || stem.take(3) == "lpt"@) && is_port(stem[3])
}

/// What stands before the first dot of `name`, without white space at its
/// end.
pub open spec fn stem_of(name: Seq<char>) -> Seq<char> {
    text::trimmed_end(name.take(text::first_of(name, '.') as int))
}

/// A name Win32 reads as some other one.
pub open spec fn misread(name: Seq<char>) -> bool {
    ||| name.len() > 0 && (name.last() == '.' || name.last() == ' ')
    ||| name.contains(':')
    ||| is_device(text::lowered(stem_of(name)))
}

/// Whether `stem`, in lowercase and without extension, is a device.
pub fn is_device_stem(stem: &[char]) -> (r: bool)
    ensures
        r == is_device(stem@),
{
    let con = text::chars_of("con");
    let prn = text::chars_of("prn");
    let aux = text::chars_of("aux");
    let nul = text::chars_of("nul");
    if text::same_units(stem, con.as_slice()) || text::same_units(stem, prn.as_slice())
        || text::same_units(stem, aux.as_slice()) || text::same_units(stem, nul.as_slice()) {
        return true;
    }
    if stem.len() != 4 {
        return false;
    }
    let com = text::chars_of("com");
    let lpt = text::chars_of("lpt");
    let head = vstd::slice::slice_subrange(stem, 0, 3);
    assert(head@ =~= stem@.take(3));
    if !text::same_units(head, com.as_slice()) && !text::same_units(head, lpt.as_slice()) {
        return false;
    }
    let c = stem[3];
    ('1' <= c && c <= '9') || c == '\u{b9}' || c == '\u{b2}' || c == '\u{b3}'
}

/// A name Win32 reads as some other one. It strips trailing dots and
/// spaces, so `C:\Users.` opens `C:\Users`; it reads `NUL` or `COM1` in
/// any directory as a device; and after a colon comes a stream of another
/// file. NTFS keeps such names when they arrive through `\\?\` or WSL,
/// and the scan lists them as stored, but the trash and the removal open
/// them through Win32.
pub fn misread_by_win32(name: &str) -> (r: bool)
    ensures
        r == misread(name@),
{
    let all = text::chars_of(name);
    let n: usize = all.len();
    if n > 0 && (all[n - 1] == '.' || all[n - 1] == ' ') {
        return true;
    }
    // `nul.txt` was a device too, before Windows 11: refused either way.
    let mut dot: usize = n;
    let mut colon = false;
    let mut i: usize = 0;
    while i < n
        invariant
            i <= n,
            n == all@.len(),
            all@ == name@,
            dot <= n,
            dot == n ==> forall|j: int| 0 <= j < i ==> all@[j] != '.',
            dot < n ==> all@[dot as int] == '.' && dot < i,
            forall|j: int| 0 <= j < dot && j < i ==> all@[j] != '.',
            colon == exists|j: int| 0 <= j < i && #[trigger] all@[j] == ':',
        decreases n - i,
    {
        if all[i] == '.' && dot == n {
            dot = i;
        }
        if all[i] == ':' {
            colon = true;
        }
        i += 1;
    }
    assert(colon == name@.contains(':'));
    if colon {
        return true;
    }
    proof {
        text::lemma_first_of(name@, '.');
        let at = text::first_of(name@, '.') as int;
        if at < dot {
            assert(name@[at] == '.');
        }
        if dot < at {
            assert(name@[dot as int] != '.');
        }
        assert(at == dot);
    }
    let mut stem = vstd::slice::slice_to_vec(vstd::slice::slice_subrange(all.as_slice(), 0, dot));
    assert(stem@ =~= name@.take(dot as int));
    text::trim_end(&mut stem);
    let lower = text::lower(text::string_of(stem.as_slice()).as_str());
    is_device_stem(text::chars_of(lower.as_str()).as_slice())
}

/// Whether a component is a name Win32 would misread.
pub open spec fn misread_part(part: Part) -> bool {
    part matches Part::Name(name) && misread(path::displayed(Platform::Windows, name))
}

/// The first component Win32 would misread.
pub open spec fn misread_name(parts: Seq<Part>) -> Option<Part> {
    lists::first_where(parts, |part: Part| misread_part(part))
}

/// The first name in `path` Win32 would misread, as shown.
pub fn first_misread(path: &PathBuf) -> (r: Option<String>)
    ensures
        match r {
            Some(name) => misread_name(path@.parts) matches Some(Part::Name(bytes)) && name@
                == path::displayed(Platform::Windows, bytes),
            None => misread_name(path@.parts) is None,
        },
{
    let ghost all = path@.parts;
    let ghost fits = |part: Part| misread_part(part);
    let mut i: usize = 0;
    while i < path.parts.len()
        invariant
            i <= path.parts@.len(),
            all == path@.parts,
            fits == (|part: Part| misread_part(part)),
            forall|j: int| 0 <= j < i ==> !fits(#[trigger] all[j]),
        decreases path.parts@.len() - i,
    {
        assert(all[i as int] == path.parts@[i as int]@);
        if let Component::Normal(name) = &path.parts[i] {
            let shown = path::display_bytes(Platform::Windows, name.as_slice());
            if misread_by_win32(shown.as_str()) {
                proof {
                    lists::lemma_first_where_skip(all, i as int, fits);
                }
                return Some(shown);
            }
        }
        i += 1;
    }
    proof {
        lists::lemma_first_where_skip(all, i as int, fits);
    }
    None
}

// ---------------------------------------------------------------------
// What is known of the disk.
// ---------------------------------------------------------------------

/// The home directory, as the guards compare it: by key, and by identity.
#[derive(Debug)]
pub struct Home {
    pub key: PathBuf,
    /// The key of the path with every link resolved: `/home` may be a link
    /// to `/data/home`, and a scan of `/data` then shows home under a
    /// spelling [`Self::key`] does not match.
    pub real: Option<PathBuf>,
    /// Device and inode (volume and file id on Windows), so a spelling a
    /// key cannot fold still matches.
    pub id: Option<(u64, u64)>,
}

/// What a [`Home`] stands for.
pub struct HomeView {
    pub key: PathView,
    pub real: Option<PathView>,
    pub id: Option<(u64, u64)>,
}

/// What a path that may be missing stands for.
pub open spec fn path_view(path: Option<PathBuf>) -> Option<PathView> {
    match path {
        Some(path) => Some(path@),
        None => None,
    }
}

impl View for Home {
    type V = HomeView;

    open spec fn view(&self) -> HomeView {
        HomeView { key: self.key@, real: path_view(self.real), id: self.id }
    }
}

/// What a home directory that may be unknown stands for.
pub open spec fn home_view(home: Option<&Home>) -> Option<HomeView> {
    match home {
        Some(home) => Some(home@),
        None => None,
    }
}

impl Home {
    /// The home directory at `path`, which is really at `resolved` and is the
    /// directory entry `id`, as far as either is known.
    pub fn of(
        platform: Platform,
        path: &PathBuf,
        resolved: Option<&PathBuf>,
        id: Option<(u64, u64)>,
    ) -> (r: Home)
        ensures
            r@.key == guards::key(platform, path@.parts),
            r@.real == (match resolved {
                Some(resolved) => Some(guards::key(platform, resolved@.parts)),
                None => None,
            }),
            r@.id == id,
    {
        let key = guards::guard_key(platform, path);
        let resolved = match resolved {
            Some(resolved) => Some(guards::guard_key(platform, resolved)),
            None => None,
        };
        Home { key, real: resolved, id }
    }
}

/// What the disk says of one marked path.
#[derive(Debug)]
pub struct Facts {
    /// What makes two spellings one directory entry, of the path itself.
    pub identity: Option<(u64, u64)>,
    /// Whether the path is a mount point: see [`is_mount_point`].
    pub mount_point: bool,
    /// The directory the path is in, with every link resolved.
    pub real_parent: Option<PathBuf>,
}

/// What [`Facts`] stand for.
pub struct FactsView {
    pub identity: Option<(u64, u64)>,
    pub mount_point: bool,
    pub real_parent: Option<PathView>,
}

impl View for Facts {
    type V = FactsView;

    open spec fn view(&self) -> FactsView {
        FactsView {
            identity: self.identity,
            mount_point: self.mount_point,
            real_parent: path_view(self.real_parent),
        }
    }
}

/// What the disk says of a directory entry, without following a link.
#[derive(Clone, Copy, Debug, PartialEq, Eq, Structural)]
pub struct Stat {
    pub is_dir: bool,
    pub device: u64,
}

/// A directory on another device than its parent, or whose parent cannot be
/// asked, or without one.
pub open spec fn mounted_there(parts: Seq<Part>, here: Option<Stat>, parent: Option<Stat>) -> bool {
    match here {
        None => false,
        Some(here) => here.is_dir && (path::has_parent(parts) ==> match parent {
            None => true,
            Some(parent) => parent.device != here.device,
        }),
    }
}

/// Whether `path`, of which the disk says `here` and of its parent
/// `parent`, sits on a different device than its parent, i.e. is a mount
/// point. Descending into one would delete data the user never marked.
pub fn is_mount_point(path: &PathBuf, here: Option<Stat>, parent: Option<Stat>) -> (r: bool)
    ensures
        r == mounted_there(path@.parts, here, parent),
{
    match here {
        None => false,
        Some(here) => {
            if !here.is_dir {
                return false;
            }
            if !path.has_parent() {
                return true;
            }
            match parent {
                Some(parent) => parent.device != here.device,
                // A directory whose parent cannot be asked is not worth the
                // risk.
                None => true,
            }
        },
    }
}

// ---------------------------------------------------------------------
// Refusing.
// ---------------------------------------------------------------------

/// `path` names, or is by identity, the home directory.
pub open spec fn is_home(
    key: Seq<Part>,
    identity: Option<(u64, u64)>,
    home: Option<HomeView>,
) -> bool {
    home matches Some(home) && (key == home.key.parts || (home.id is Some && identity == home.id))
}

/// The home directory is the path keyed `key` or inside it.
pub open spec fn holds_home(key: Seq<Part>, home: Option<HomeView>) -> bool {
    home matches Some(home) && path::inside(home.key.parts, key)
}

/// The key of a home directory that may be unknown.
pub open spec fn home_key(home: Option<HomeView>) -> Option<Seq<Part>> {
    match home {
        Some(home) => Some(home.key.parts),
        None => None,
    }
}

/// On Windows, the first name among `parts` that Win32 would misread, as
/// shown.
pub open spec fn misread_on(platform: Platform, parts: Seq<Part>) -> Option<Seq<char>> {
    if platform is Windows {
        match misread_name(parts) {
            Some(Part::Name(name)) => Some(path::displayed(platform, name)),
            _ => None,
        }
    } else {
        None
    }
}

/// Why the path must not be removed in a scan of `root`, if it must not:
/// the first of the guards it fails.
pub open spec fn refusal(
    platform: Platform,
    path: PathView,
    root: PathView,
    home: Option<HomeView>,
    mounts: Seq<PathView>,
    trees: Seq<TreeView>,
    facts: FactsView,
) -> Option<Seq<char>> {
    let key = guards::key(platform, path.parts).parts;
    let root_key = guards::key(platform, root.parts).parts;
    if !path::has_parent(path.parts) {
        Some("the filesystem root cannot be removed"@)
    } else if key == root_key {
        Some("the scanned root cannot be removed"@)
    } else if let Some(name) = misread_on(platform, path.parts) {
        Some("Windows would read "@ + name + " as a different name, and remove that"@)
    } else if is_home(key, facts.identity, home) {
        Some("the home directory cannot be removed"@)
    } else if holds_home(key, home) {
        Some("it contains the home directory"@)
    } else if !path::inside(key, root_key) && !path::inside(path.parts, root.parts) {
        Some("outside the scanned root"@)
    } else if let Some(system) = system::tree_over(key, home_key(home), trees) {
        Some("part of the system under "@ + system + ": "@ + system::system_tools(platform))
    } else if let Some(system) = system::tree_under(key, trees) {
        Some("it contains "@ + system + ", which is part of the system"@)
    } else if facts.mount_point {
        Some("a mount point: removing it would cross onto another filesystem"@)
    } else if let Some(mount) = mounts::at_or_below(key, mounts) {
        Some(reaches_into(platform, mount))
    } else {
        None
    }
}

/// What is said of a path with `mount` inside it.
pub open spec fn reaches_into(platform: Platform, mount: PathView) -> Seq<char> {
    path::displayed(platform, mount.text)
        + " is mounted inside it: removing it would reach into another filesystem"@
}

/// What is said of a path with `mount` inside it.
fn say_mounted(platform: Platform, mount: &PathBuf) -> (r: String)
    ensures
        r@ == reaches_into(platform, mount@),
{
    let mut out = mount.display(platform);
    out.append(" is mounted inside it: removing it would reach into another filesystem");
    out
}

/// What an answer that may be missing says.
pub open spec fn said(answer: Option<String>) -> Option<Seq<char>> {
    match answer {
        Some(text) => Some(text@),
        None => None,
    }
}

/// Why `path` must not be removed in a scan of `root`, if it must not.
pub fn refuse(
    platform: Platform,
    path: &PathBuf,
    root: &PathBuf,
    home: Option<&Home>,
    mounts: &[PathBuf],
    trees: &[SystemTree],
    facts: &Facts,
) -> (r: Option<String>)
    ensures
        said(r) == refusal(
            platform,
            path@,
            root@,
            home_view(home),
            mounts.deep_view(),
            trees.deep_view(),
            facts@,
        ),
{
    let key = guards::guard_key(platform, path);
    let root_key = guards::guard_key(platform, root);
    if !path.has_parent() {
        return Some("the filesystem root cannot be removed".to_owned());
    }
    if key.same(&root_key) {
        return Some("the scanned root cannot be removed".to_owned());
    }
    if let Platform::Windows = platform {
        if let Some(name) = first_misread(path) {
            let mut reason = "Windows would read ".to_owned();
            reason.append(name.as_str());
            reason.append(" as a different name, and remove that");
            return Some(reason);
        }
    }
    if let Some(home) = home {
        let same_id: bool = match (home.id, facts.identity) {
            (Some(one), Some(two)) => one.0 == two.0 && one.1 == two.1,
            _ => false,
        };
        if key.same(&home.key) || same_id {
            return Some("the home directory cannot be removed".to_owned());
        }
        // On Linux `/home` is usually a mount point of its own and refused
        // as one; on macOS `/Users` is on the same volume as `/`, and
        // removing it would empty the home directory before failing on
        // `/Users` itself.
        if home.key.starts_with(&key) {
            return Some("it contains the home directory".to_owned());
        }
    }
    // By spelling too: the Data volume's root keeps its name as a key, while
    // everything under it is keyed as under `/`.
    if !key.starts_with(&root_key) && !path.starts_with(root) {
        return Some("outside the scanned root".to_owned());
    }
    let home_key: Option<&PathBuf> = match home {
        Some(home) => Some(&home.key),
        None => None,
    };
    if let Some(system) = system::system_tree(&key, home_key, trees) {
        let mut reason = "part of the system under ".to_owned();
        reason.append(system.as_str());
        reason.append(": ");
        match platform {
            Platform::Windows => {
                reason.append("use Settings, or the program's own uninstaller");
            },
            _ => {
                reason.append("remove it with the tool that installed it");
            },
        }
        return Some(reason);
    }
    if let Some(system) = system::system_tree_below(&key, trees) {
        let mut reason = "it contains ".to_owned();
        reason.append(system.as_str());
        reason.append(", which is part of the system");
        return Some(reason);
    }
    if facts.mount_point {
        return Some(
            "a mount point: removing it would cross onto another filesystem".to_owned(),
        );
    }
    match mounts::mount_at_or_below(&key, mounts) {
        Some(mount) => Some(say_mounted(platform, mount)),
        None => None,
    }
}

/// Why the path, inside `root` as spelled, is somewhere else in fact, if it
/// is, given where its directory really is.
pub open spec fn link_refusal(
    platform: Platform,
    path: PathView,
    root: PathView,
    real_root: Option<PathView>,
    home: Option<HomeView>,
    real_parent: Option<PathView>,
) -> Option<Seq<char>> {
    match (last_name_of(path.parts), real_parent) {
        (Some(name), Some(parent)) => {
            let actual = guards::key(
                platform,
                path::joined(platform, parent, seq![Part::Name(name)]).parts,
            );
            if real_root matches Some(real_root) && path::inside(path.parts, root.parts)
                && actual.parts != guards::key(
                platform,
                path::joined(
                    platform,
                    real_root,
                    path.parts.skip(root.parts.len() as int),
                ).parts,
            ).parts {
                Some(
                    "reached through a link: it is really "@ + path::displayed(
                        platform,
                        actual.text,
                    ),
                )
            } else if home matches Some(HomeView { real: Some(home), .. }) && path::inside(
                home.parts,
                actual.parts,
            ) {
                Some("it contains the home directory"@)
            } else {
                None
            }
        },
        _ => None,
    }
}

/// The name of a path that is in a directory.
pub open spec fn last_name_of(parts: Seq<Part>) -> Option<Seq<u8>> {
    if path::has_parent(parts) {
        path::last_name(parts)
    } else {
        None
    }
}

/// Why `path`, inside `root` as spelled, is somewhere else in fact, if it
/// is. The guards compare spellings, and a link or junction on the way
/// down makes a spelling inside the root name something outside it: the
/// trash, and removal on Windows, follow it. Links above the root are the
/// user's own choice of root, so the real path is compared with the real
/// root. The home directory is looked for again by real path, too.
///
/// Anything that cannot be resolved passes: the removal of a path that is
/// gone fails on its own.
pub fn linked(
    platform: Platform,
    path: &PathBuf,
    root: &PathBuf,
    real_root: Option<&PathBuf>,
    home: Option<&Home>,
    real_parent: Option<&PathBuf>,
) -> (r: Option<String>)
    ensures
        said(r) == link_refusal(
            platform,
            path@,
            root@,
            match real_root {
                Some(real_root) => Some(real_root@),
                None => None,
            },
            home_view(home),
            match real_parent {
                Some(real_parent) => Some(real_parent@),
                None => None,
            },
        ),
{
    if !path.has_parent() {
        return None;
    }
    let name = match path.file_name() {
        Some(name) => name,
        None => {
            return None;
        },
    };
    let parent = match real_parent {
        Some(parent) => parent,
        None => {
            return None;
        },
    };
    let actual = guards::guard_key(platform, &parent.join_name(platform, name.as_slice()));
    if let Some(real_root) = real_root {
        if let Some(rest) = path.strip_prefix(root) {
            let expected = guards::guard_key(platform, &real_root.join(platform, &rest));
            if !actual.same(&expected) {
                let mut reason = "reached through a link: it is really ".to_owned();
                reason.append(actual.display(platform).as_str());
                return Some(reason);
            }
        }
    }
    if let Some(home) = home {
        if let Some(home) = &home.real {
            if home.starts_with(&actual) {
                return Some("it contains the home directory".to_owned());
            }
        }
    }
    None
}

/// Why the path would reach into another filesystem, if it would.
pub open spec fn mount_refusal(
    platform: Platform,
    path: PathView,
    mounts: Seq<PathView>,
    mount_point: bool,
) -> Option<Seq<char>> {
    if mount_point {
        Some("it became a mount point since it was marked"@)
    } else {
        match mounts::at_or_below(guards::key(platform, path.parts).parts, mounts) {
            Some(mount) => Some(reaches_into(platform, mount)),
            None => None,
        }
    }
}

/// Why `path` would reach into another filesystem, if it would: the
/// mount-point rules of [`refuse`], asked again at removal time.
pub fn mounted(platform: Platform, path: &PathBuf, mounts: &[PathBuf], mount_point: bool) -> (r:
    Option<String>)
    ensures
        said(r) == mount_refusal(platform, path@, mounts.deep_view(), mount_point),
{
    if mount_point {
        return Some("it became a mount point since it was marked".to_owned());
    }
    match mounts::mount_at_or_below(&guards::guard_key(platform, path), mounts) {
        Some(mount) => Some(say_mounted(platform, mount)),
        None => None,
    }
}

// ---------------------------------------------------------------------
// What the guards keep.
// ---------------------------------------------------------------------

/// What nothing objects to has a parent, is not the scanned root but inside
/// it, is not the home directory and does not hold it, is not in a system
/// tree (unless in the home directory) and holds none, and nothing is
/// mounted on it or inside it.
pub proof fn lemma_guards(
    platform: Platform,
    path: PathView,
    root: PathView,
    home: Option<HomeView>,
    mounts: Seq<PathView>,
    trees: Seq<TreeView>,
    facts: FactsView,
)
    requires
        refusal(platform, path, root, home, mounts, trees, facts) is None,
    ensures
        ({
            let key = guards::key(platform, path.parts).parts;
            let root_key = guards::key(platform, root.parts).parts;
            &&& path::has_parent(path.parts)
            &&& key != root_key
            &&& path::inside(key, root_key) || path::inside(path.parts, root.parts)
            &&& home matches Some(home) ==> {
                &&& key != home.key.parts
                &&& home.id is Some ==> facts.identity != home.id
                &&& !path::inside(home.key.parts, key)
            }
            &&& forall|i: int|
                0 <= i < trees.len() ==> {
                    &&& path::inside(key, (#[trigger] trees[i]).key.parts) ==> (home matches Some(
                        home,
                    ) && path::inside(key, home.key.parts))
                    &&& !path::inside(trees[i].key.parts, key) || trees[i].key.parts == key
                }
            &&& !facts.mount_point
            &&& forall|i: int|
                0 <= i < mounts.len() ==> !path::inside((#[trigger] mounts[i]).parts, key)
        }),
{
    let key = guards::key(platform, path.parts).parts;
    lists::lemma_first_where(trees, |tree: TreeView| path::inside(key, tree.key.parts));
    lists::lemma_first_where(
        trees,
        |tree: TreeView| tree.key.parts != key && path::inside(tree.key.parts, key),
    );
    lists::lemma_first_where(mounts, |mount: PathView| path::inside(mount.parts, key));
    if platform is Windows {
        lists::lemma_first_where(path.parts, |part: Part| misread_part(part));
    }
}

/// What nothing objects to for its links really is where the scan shows it,
/// as far as that is known, and does not hold the real home directory.
pub proof fn lemma_link_guard(
    platform: Platform,
    path: PathView,
    root: PathView,
    real_root: Option<PathView>,
    home: Option<HomeView>,
    real_parent: Option<PathView>,
)
    requires
        link_refusal(platform, path, root, real_root, home, real_parent) is None,
        last_name_of(path.parts) is Some,
        real_parent is Some,
    ensures
        ({
            let actual = guards::key(
                platform,
                path::joined(
                    platform,
                    real_parent->0,
                    seq![Part::Name(last_name_of(path.parts)->0)],
                ).parts,
            ).parts;
            &&& real_root is Some && path::inside(path.parts, root.parts) ==> actual == guards::key(
                platform,
                path::joined(
                    platform,
                    real_root->0,
                    path.parts.skip(root.parts.len() as int),
                ).parts,
            ).parts
            &&& home matches Some(HomeView { real: Some(home), .. }) ==> !path::inside(
                home.parts,
                actual,
            )
        }),
{
}

} // verus!
