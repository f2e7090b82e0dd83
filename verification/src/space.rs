//! Free space on the volume a path lives on, and which mounts belong to it.

use vstd::prelude::*;

use crate::guards;
use crate::lists;
use crate::path;
use crate::path::{Component, Part, PathBuf, PathView};
use crate::platform::Platform;
use crate::text;

pub use crate::guards::MACOS_DATA_VOLUME;
pub use crate::mounts::parse_macos_mounts;

verus! {

// ---------------------------------------------------------------------
// Capacity.
// ---------------------------------------------------------------------

/// A volume's capacity in bytes.
#[derive(Clone, Copy, Debug, PartialEq, Eq, Structural)]
pub struct SpaceInfo {
    /// Total size of the volume.
    pub total: u64,
    /// Free blocks, including the reserve only root may write to.
    pub free: u64,
    /// Free blocks this user may actually write; what `df -h` reports.
    pub available: u64,
}

impl Default for SpaceInfo {
    fn default() -> (r: Self)
        ensures
            r.total == 0,
            r.free == 0,
            r.available == 0,
    {
        SpaceInfo { total: 0, free: 0, available: 0 }
    }
}

/// The smaller of two numbers.
pub open spec fn at_most(value: int, limit: int) -> int {
    if value < limit {
        value
    } else {
        limit
    }
}

/// A volume after `bytes` are removed from it: no more is free than it holds.
pub open spec fn space_after(space: SpaceInfo, bytes: nat) -> SpaceInfo {
    SpaceInfo {
        total: space.total,
        free: at_most(space.free + bytes, space.total as int) as u64,
        available: at_most(space.available + bytes, space.total as int) as u64,
    }
}

impl SpaceInfo {
    /// Space in use, computed from `free` rather than `available` so the
    /// figure does not jump when a reserve is opened to root.
    pub fn used(&self) -> (r: u64)
        ensures
            r == if self.free <= self.total {
                self.total - self.free
            } else {
                0
            },
    {
        if self.free <= self.total {
            self.total - self.free
        } else {
            0
        }
    }

    /// Free space after `bytes` are removed, saturating at the volume size
    /// and never counting the same byte twice.
    #[must_use]
    pub fn after_removing(&self, bytes: u64) -> (r: SpaceInfo)
        ensures
            r == space_after(*self, bytes as nat),
    {
        SpaceInfo {
            total: self.total,
            free: capped(self.free, bytes, self.total),
            available: capped(self.available, bytes, self.total),
        }
    }
}

/// `value` and `more`, together, but no more than `limit`.
fn capped(value: u64, more: u64, limit: u64) -> (r: u64)
    ensures
        r == at_most(value + more, limit as int),
{
    if value >= limit || more >= limit - value {
        limit
    } else {
        value + more
    }
}

/// What a file system reports of its blocks.
#[derive(Clone, Copy, Debug, PartialEq, Eq, Structural)]
pub struct BlockCounts {
    /// The size the counts are expressed in; some report zero.
    pub fragment: u64,
    /// The size preferred for I/O.
    pub block: u64,
    pub total: u64,
    pub free: u64,
    pub available: u64,
}

/// The size the counts are expressed in: the fragment size, and where that
/// is reported as zero the block size, rather than a zero-sized volume.
pub open spec fn unit_of(counts: BlockCounts) -> u64 {
    if counts.fragment == 0 {
        counts.block
    } else {
        counts.fragment
    }
}

/// The space on a volume whose file system reports `counts`.
pub fn space_info(counts: BlockCounts) -> (r: SpaceInfo)
    ensures
        r.total == at_most(counts.total * unit_of(counts), u64::MAX as int),
        r.free == at_most(counts.free * unit_of(counts), u64::MAX as int),
        r.available == at_most(counts.available * unit_of(counts), u64::MAX as int),
{
    let unit: u64 = if counts.fragment == 0 {
        counts.block
    } else {
        counts.fragment
    };
    SpaceInfo {
        total: times(counts.total, unit),
        free: times(counts.free, unit),
        available: times(counts.available, unit),
    }
}

/// `count` times `unit`, but no more than fits.
fn times(count: u64, unit: u64) -> (r: u64)
    ensures
        r == at_most(count * unit, u64::MAX as int),
{
    match count.checked_mul(unit) {
        Some(product) => product,
        None => u64::MAX,
    }
}

/// Removing never makes a volume look fuller, and never larger than it is;
/// and two removals count like one of both.
pub proof fn lemma_after_removing(space: SpaceInfo, a: nat, b: nat)
    requires
        space.free <= space.total,
        space.available <= space.total,
    ensures
        ({
            let after = space_after(space, a);
            &&& after.total == space.total
            &&& space.free <= after.free <= space.total
            &&& space.available <= after.available <= space.total
            &&& space_after(after, b) == space_after(space, a + b)
        }),
{
}

// ---------------------------------------------------------------------
// The mount table, line by line.
// ---------------------------------------------------------------------

/// One line of the mount table.
#[derive(Debug, PartialEq, Eq)]
pub struct Mount {
    /// What is mounted: a device, or a name like `tmpfs` or `systemd-1`.
    pub source: String,
    pub point: PathBuf,
    pub fstype: String,
    pub options: String,
}

/// What a [`Mount`] stands for.
pub struct MountView {
    pub source: Seq<char>,
    pub point: PathView,
    pub fstype: Seq<char>,
    pub options: Seq<char>,
}

impl View for Mount {
    type V = MountView;

    open spec fn view(&self) -> MountView {
        MountView {
            source: self.source@,
            point: self.point@,
            fstype: self.fstype@,
            options: self.options@,
        }
    }
}

impl DeepView for Mount {
    type V = MountView;

    open spec fn deep_view(&self) -> MountView {
        self@
    }
}

impl Clone for Mount {
    fn clone(&self) -> (r: Self)
        ensures
            r@ == self@,
    {
        Mount {
            source: self.source.clone(),
            point: self.point.clone(),
            fstype: self.fstype.clone(),
            options: self.options.clone(),
        }
    }
}

/// A mount point as the table writes it, with the spaces in it restored:
/// they are escaped as `\040`.
pub open spec fn spaced(field: Seq<char>) -> Seq<char> {
    text::replaced(field, "\\040"@, " "@)
}

/// The mount a line names: a source, a point and a type at least.
pub open spec fn mount_of(line: Seq<char>) -> Option<MountView> {
    let all = text::fields(line);
    if all.len() < 3 {
        None
    } else {
        Some(
            MountView {
                source: all[0],
                point: guards::text_path(spaced(all[1])),
                fstype: all[2],
                options: if all.len() > 3 {
                    all[3]
                } else {
                    seq![]
                },
            },
        )
    }
}

/// The mounts `lines` name, in order; others are left out.
pub open spec fn mounts_of(lines: Seq<Seq<char>>) -> Seq<MountView>
    decreases lines.len(),
{
    if lines.len() == 0 {
        seq![]
    } else {
        let front = mounts_of(lines.drop_last());
        match mount_of(lines.last()) {
            Some(mount) => front.push(mount),
            None => front,
        }
    }
}

/// A mount point with the spaces in it restored.
fn restore_spaces(field: &[char]) -> (r: String)
    ensures
        r@ == spaced(field@),
{
    let pat = text::chars_of("\\040");
    let with = text::chars_of(" ");
    text::string_of(text::replace(field, pat.as_slice(), with.as_slice()).as_slice())
}

/// Parse `/proc/self/mounts`.
pub fn parse_mounts(table: &str) -> (r: Vec<Mount>)
    ensures
        r.deep_view() == mounts_of(text::lines(table@)),
{
    let all = text::chars_of(table);
    let lines = text::split_lines(all.as_slice());
    let ghost whole = text::lines(table@);
    let mut out: Vec<Mount> = Vec::new();
    let mut i: usize = 0;
    assert(out.deep_view() =~= mounts_of(whole.take(0)));
    while i < lines.len()
        invariant
            i <= lines@.len(),
            lines@.len() == whole.len(),
            forall|k: int| 0 <= k < lines@.len() ==> (#[trigger] lines@[k])@ == whole[k],
            out.deep_view() == mounts_of(whole.take(i as int)),
        decreases lines@.len() - i,
    {
        let ghost before = out.deep_view();
        proof {
            assert(whole.take(i + 1).drop_last() =~= whole.take(i as int));
            assert(whole.take(i + 1).last() == whole[i as int]);
        }
        let fields = text::split_whitespace(lines[i].as_slice());
        if fields.len() >= 3 {
            let options = if fields.len() > 3 {
                text::string_of(fields[3].as_slice())
            } else {
                String::new()
            };
            let point = restore_spaces(fields[1].as_slice());
            let mount = Mount {
                source: text::string_of(fields[0].as_slice()),
                point: PathBuf::of(point.as_str()),
                fstype: text::string_of(fields[2].as_slice()),
                options,
            };
            let ghost view = mount@;
            assert(mount_of(whole[i as int]) == Some(view)) by {
                assert(fields.len() <= 3 ==> view.options =~= Seq::<char>::empty());
            }
            out.push(mount);
            assert(out.deep_view() =~= before.push(view));
        }
        i += 1;
    }
    assert(whole.take(whole.len() as int) =~= whole);
    out
}

// ---------------------------------------------------------------------
// The device a path is on.
// ---------------------------------------------------------------------

/// A mount a path is at or below: how long its point is spelled, and what is
/// mounted.
pub struct DeviceView {
    pub length: nat,
    pub device: Seq<char>,
}

/// What a line says of the device of a path: the line names a mount point
/// that the path is at or below.
pub open spec fn device_of(line: Seq<char>, path: Seq<Part>) -> Option<DeviceView> {
    let all = text::fields(line);
    if all.len() < 2 {
        None
    } else {
        let point = guards::text_path(spaced(all[1]));
        if path::inside(path, point.parts) {
            Some(DeviceView { length: point.text.len(), device: all[0] })
        } else {
            None
        }
    }
}

/// What the lines say of the device of a path, in order.
pub open spec fn devices_of(lines: Seq<Seq<char>>, path: Seq<Part>) -> Seq<DeviceView>
    decreases lines.len(),
{
    if lines.len() == 0 {
        seq![]
    } else {
        let front = devices_of(lines.drop_last(), path);
        match device_of(lines.last(), path) {
            Some(device) => front.push(device),
            None => front,
        }
    }
}

/// The device of a path by a mount table: of the mounts with the longest
/// point it is at or below, the last.
pub open spec fn device_by(table: Seq<char>, path: Seq<Part>) -> Option<Seq<char>> {
    match lists::last_largest(
        devices_of(text::lines(table), path),
        |device: DeviceView| device.length,
    ) {
        Some(best) => Some(best.device),
        None => None,
    }
}

/// The device a path's filesystem is mounted from, such as
/// `/dev/nvme0n1p2`: the mount with the longest point that is a prefix of
/// `path` in `table`, which is `/proc/self/mounts`.
pub fn device_in(table: &str, path: &PathBuf) -> (r: Option<String>)
    ensures
        (match r {
            Some(device) => Some(device@),
            None => None,
        }) == device_by(table@, path@.parts),
{
    let all = text::chars_of(table);
    let lines = text::split_lines(all.as_slice());
    let ghost whole = text::lines(table@);
    let ghost size = |device: DeviceView| device.length;
    let mut best: Option<(usize, String)> = None;
    let mut i: usize = 0;
    assert(whole.take(0) =~= Seq::<Seq<char>>::empty());
    while i < lines.len()
        invariant
            i <= lines@.len(),
            lines@.len() == whole.len(),
            whole == text::lines(table@),
            size == (|device: DeviceView| device.length),
            forall|k: int| 0 <= k < lines@.len() ==> (#[trigger] lines@[k])@ == whole[k],
            (match best {
                Some((length, device)) => Some(
                    DeviceView { length: length as nat, device: device@ },
                ),
                None => None,
            }) == lists::last_largest(devices_of(whole.take(i as int), path@.parts), size),
        decreases lines@.len() - i,
    {
        let ghost sofar = devices_of(whole.take(i as int), path@.parts);
        proof {
            assert(whole.take(i + 1).drop_last() =~= whole.take(i as int));
            assert(whole.take(i + 1).last() == whole[i as int]);
        }
        let fields = text::split_whitespace(lines[i].as_slice());
        if fields.len() >= 2 {
            let mount = restore_spaces(fields[1].as_slice());
            let point = PathBuf::of(mount.as_str());
            if path.starts_with(&point) {
                let length: usize = point.text.len();
                let device = text::string_of(fields[0].as_slice());
                proof {
                    let next = DeviceView { length: length as nat, device: device@ };
                    assert(device_of(whole[i as int], path@.parts) == Some(next));
                    assert(sofar.push(next).drop_last() =~= sofar);
                }
                let longer: bool = match &best {
                    Some((most, _)) => *most > length,
                    None => false,
                };
                if !longer {
                    best = Some((length, device));
                }
            }
        }
        i += 1;
    }
    assert(whole.take(whole.len() as int) =~= whole);
    match best {
        Some((_, device)) => Some(device),
        None => None,
    }
}

// ---------------------------------------------------------------------
// What belongs to a volume.
// ---------------------------------------------------------------------

/// A mount the path is at or below.
pub open spec fn over(path: Seq<Part>) -> spec_fn(MountView) -> bool {
    |mount: MountView| path::inside(path, mount.point.parts)
}

/// How long a mount's point is spelled.
pub open spec fn point_length() -> spec_fn(MountView) -> nat {
    |mount: MountView| mount.point.text.len()
}

/// The mount a path is on: of those with the longest point it is at or
/// below, the last.
pub open spec fn own_mount(mounts: Seq<MountView>, path: Seq<Part>) -> Option<MountView> {
    lists::last_largest(lists::kept(mounts, over(path)), point_length())
}

/// A mount option that puts a snapshot there.
pub open spec fn snapshot_option(option: Seq<char>) -> bool {
    text::occurs_at(option, "subvol="@, 0) && text::has_text(option, "snapshots"@)
}

/// A mount of snapshots: every file in them shares its blocks with the live
/// one, and counting them would count the disk twice.
pub open spec fn of_snapshots(mount: MountView) -> bool {
    ||| path::last_name(mount.point.parts) == Some(vstd::utf8::encode_utf8(".snapshots"@))
    ||| exists|i: int|
        0 <= i < text::pieces(mount.options, ',').len() && snapshot_option(
            #[trigger] text::pieces(mount.options, ',')[i],
        )
}

/// A mount strictly below the root that is not part of `own`'s volume.
pub open spec fn is_foreign(root: Seq<Part>, own: MountView) -> spec_fn(MountView) -> bool {
    |mount: MountView|
        {
            &&& mount.point.parts != root
            &&& path::inside(mount.point.parts, root)
            &&& mount.source != own.source || mount.fstype != own.fstype || of_snapshots(mount)
        }
}

/// The points of `mounts`.
pub open spec fn points_of(mounts: Seq<MountView>) -> Seq<PathView> {
    mounts.map_values(|mount: MountView| mount.point)
}

/// The mount points below the root that are not part of its volume.
pub open spec fn foreign_points(mounts: Seq<MountView>, root: Seq<Part>) -> Seq<PathView> {
    match own_mount(mounts, root) {
        None => seq![],
        Some(own) => points_of(lists::kept(mounts, is_foreign(root, own))),
    }
}

/// A mount of `own`'s volume that the path is at or below.
pub open spec fn same_disk(path: Seq<Part>, own: MountView) -> spec_fn(MountView) -> bool {
    |mount: MountView|
        mount.source == own.source && mount.fstype == own.fstype && path::inside(
            path,
            mount.point.parts,
        )
}

/// The top of the disk a path lives on: the shortest mount point above it
/// with the same source.
pub open spec fn disk_top(mounts: Seq<MountView>, path: Seq<Part>) -> Option<PathView> {
    match own_mount(mounts, path) {
        None => None,
        Some(own) => match lists::first_smallest(
            lists::kept(mounts, same_disk(path, own)),
            point_length(),
        ) {
            Some(mount) => Some(mount.point),
            None => None,
        },
    }
}

/// The mount `path` is on, by its place in `mounts`.
fn find_own(mounts: &[Mount], path: &PathBuf) -> (r: Option<usize>)
    ensures
        match r {
            Some(i) => i < mounts@.len() && own_mount(mounts.deep_view(), path@.parts) == Some(
                mounts@[i as int]@,
            ),
            None => own_mount(mounts.deep_view(), path@.parts) is None,
        },
{
    let ghost all = mounts.deep_view();
    let ghost fits = over(path@.parts);
    let mut best: Option<usize> = None;
    let mut i: usize = 0;
    assert(all.take(0) =~= Seq::<MountView>::empty());
    while i < mounts.len()
        invariant
            i <= mounts@.len(),
            all == mounts.deep_view(),
            fits == over(path@.parts),
            match best {
                Some(k) => k < i && lists::last_largest(
                    lists::kept(all.take(i as int), fits),
                    point_length(),
                ) == Some(mounts@[k as int]@),
                None => lists::last_largest(
                    lists::kept(all.take(i as int), fits),
                    point_length(),
                ) is None,
            },
        decreases mounts@.len() - i,
    {
        let ghost sofar = lists::kept(all.take(i as int), fits);
        proof {
            assert(all.take(i + 1).drop_last() =~= all.take(i as int));
            assert(all.take(i + 1).last() == mounts@[i as int]@);
            assert(sofar.push(mounts@[i as int]@).drop_last() =~= sofar);
        }
        if path.starts_with(&mounts[i].point) {
            let longer: bool = match best {
                Some(k) => mounts[k].point.text.len() > mounts[i].point.text.len(),
                None => false,
            };
            if !longer {
                best = Some(i);
            }
        }
        i += 1;
    }
    assert(all.take(all.len() as int) =~= all);
    best
}

/// Whether `mount` is of snapshots.
pub fn is_snapshot(mount: &Mount) -> (r: bool)
    ensures
        r == of_snapshots(mount@),
{
    let snapshots = ".snapshots";
    if let Some(name) = mount.point.file_name() {
        if text::same_units(name.as_slice(), snapshots.as_bytes()) {
            return true;
        }
    }
    let all = text::chars_of(mount.options.as_str());
    let options = text::split_all(all.as_slice(), ',');
    let ghost whole = text::pieces(mount@.options, ',');
    let subvol = text::chars_of("subvol=");
    let word = text::chars_of("snapshots");
    let mut i: usize = 0;
    while i < options.len()
        invariant
            i <= options@.len(),
            options@.len() == whole.len(),
            whole == text::pieces(mount@.options, ','),
            forall|k: int| 0 <= k < options@.len() ==> (#[trigger] options@[k])@ == whole[k],
            subvol@ == "subvol="@,
            word@ == "snapshots"@,
            forall|k: int| 0 <= k < i ==> !snapshot_option(#[trigger] whole[k]),
        decreases options@.len() - i,
    {
        let option = options[i].as_slice();
        assert(option@ == whole[i as int]);
        if text::stands_at(option, subvol.as_slice(), 0) {
            if let Some(_) = text::find_first(option, word.as_slice()) {
                assert(snapshot_option(whole[i as int]));
                return true;
            }
        }
        i += 1;
    }
    false
}

/// Whether two texts are the same.
fn same_text(a: &String, b: &String) -> (r: bool)
    ensures
        r == (a@ == b@),
{
    *a == *b
}

/// Mount points below `root` that are not part of `root`'s volume, which a
/// scan of that volume must not enter.
///
/// "The volume" is the mount *source*, not the device number: btrfs gives
/// every subvolume its own device, so `/home` may look like a different
/// filesystem from `/` though it is the same disk. Everything else is left
/// out: pseudo filesystems, tmpfs, other disks, network shares, and
/// automount points, since entering one of those would mount a NAS just to
/// measure it. Snapshot subvolumes are left out too.
pub fn foreign_mounts(mounts: &[Mount], root: &PathBuf) -> (r: Vec<PathBuf>)
    ensures
        r.deep_view() == foreign_points(mounts.deep_view(), root@.parts),
{
    let mut points: Vec<PathBuf> = Vec::new();
    let own = match find_own(mounts, root) {
        None => {
            assert(points.deep_view() =~= Seq::<PathView>::empty());
            return points;
        },
        Some(own) => &mounts[own],
    };
    let ghost all = mounts.deep_view();
    let ghost fits = is_foreign(root@.parts, own@);
    let mut i: usize = 0;
    assert(points.deep_view() =~= points_of(lists::kept(all.take(0), fits)));
    while i < mounts.len()
        invariant
            i <= mounts@.len(),
            all == mounts.deep_view(),
            fits == is_foreign(root@.parts, own@),
            points.deep_view() == points_of(lists::kept(all.take(i as int), fits)),
        decreases mounts@.len() - i,
    {
        let ghost before = points.deep_view();
        let ghost sofar = lists::kept(all.take(i as int), fits);
        let mount = &mounts[i];
        proof {
            assert(all.take(i + 1).drop_last() =~= all.take(i as int));
            assert(all.take(i + 1).last() == mount@);
            assert(points_of(sofar.push(mount@)) =~= points_of(sofar).push(mount@.point));
        }
        if !mount.point.same(root) && mount.point.starts_with(root) && (!same_text(
            &mount.source,
            &own.source,
        ) || !same_text(&mount.fstype, &own.fstype) || is_snapshot(mount)) {
            points.push(mount.point.clone());
            assert(points.deep_view() =~= before.push(mount@.point));
        }
        i += 1;
    }
    assert(all.take(all.len() as int) =~= all);
    points
}

/// The top of the disk `path` lives on.
///
/// The shortest mount point above it with the same source. With the home
/// directory on a subvolume at `/home` of the root disk, the disk is `/`;
/// with a separate home disk it is `/home`.
pub fn volume_root(mounts: &[Mount], path: &PathBuf) -> (r: Option<PathBuf>)
    ensures
        (match r {
            Some(top) => Some(top@),
            None => None,
        }) == disk_top(mounts.deep_view(), path@.parts),
{
    let own = match find_own(mounts, path) {
        None => {
            return None;
        },
        Some(own) => &mounts[own],
    };
    let ghost all = mounts.deep_view();
    let ghost fits = same_disk(path@.parts, own@);
    let mut best: Option<usize> = None;
    let mut i: usize = 0;
    assert(all.take(0) =~= Seq::<MountView>::empty());
    while i < mounts.len()
        invariant
            i <= mounts@.len(),
            all == mounts.deep_view(),
            fits == same_disk(path@.parts, own@),
            match best {
                Some(k) => k < i && lists::first_smallest(
                    lists::kept(all.take(i as int), fits),
                    point_length(),
                ) == Some(mounts@[k as int]@),
                None => lists::first_smallest(
                    lists::kept(all.take(i as int), fits),
                    point_length(),
                ) is None,
            },
        decreases mounts@.len() - i,
    {
        let ghost sofar = lists::kept(all.take(i as int), fits);
        let mount = &mounts[i];
        proof {
            assert(all.take(i + 1).drop_last() =~= all.take(i as int));
            assert(all.take(i + 1).last() == mount@);
            assert(sofar.push(mount@).drop_last() =~= sofar);
        }
        if same_text(&mount.source, &own.source) && same_text(&mount.fstype, &own.fstype)
            && path.starts_with(&mount.point) {
            let shorter: bool = match best {
                Some(k) => mounts[k].point.text.len() <= mount.point.text.len(),
                None => false,
            };
            if !shorter {
                best = Some(i);
            }
        }
        i += 1;
    }
    assert(all.take(all.len() as int) =~= all);
    match best {
        Some(k) => Some(mounts[k].point.clone()),
        None => None,
    }
}

// ---------------------------------------------------------------------
// The same on each platform.
// ---------------------------------------------------------------------

/// The device of a path on Linux: by the mount table, where it can be read,
/// and for the path with its links resolved, where they can be. On macOS
/// what the file system itself says, and on Windows the root of the volume.
pub enum DeviceSource {
    /// The text of `/proc/self/mounts`, and the path, resolved or as it is.
    Proc { table: Option<String>, path: PathBuf },
    /// The name the file system says it is mounted from.
    FileSystem(Option<Vec<u8>>),
    /// The root of the volume the path is on.
    Volume(Option<PathBuf>),
}

/// The bytes before the first NUL, or all of them.
pub open spec fn c_text(field: Seq<u8>) -> Seq<u8> {
    field.take(text::first_of(field, 0u8) as int)
}

/// A NUL-terminated C string field as text.
pub fn c_chars(field: &[u8]) -> (r: String)
    ensures
        r@ == text::shown(c_text(field@)),
{
    let mut end: usize = 0;
    while end < field.len() && field[end] != 0
        invariant
            end <= field@.len(),
            forall|j: int| 0 <= j < end ==> field@[j] != 0,
        decreases field@.len() - end,
    {
        end += 1;
    }
    proof {
        text::lemma_first_of(field@, 0u8);
        let at = text::first_of(field@, 0u8) as int;
        if at < end {
            assert(field@[at] == 0);
        }
        if end < at {
            assert(field@[end as int] != 0);
        }
        assert(at == end);
    }
    let name = vstd::slice::slice_subrange(field, 0, end);
    assert(name@ =~= c_text(field@));
    text::show(name)
}

/// The device of a path, as its platform names it.
pub open spec fn device_name(source: DeviceSource) -> Option<Seq<char>> {
    match source {
        DeviceSource::Proc { table: Some(table), path } => device_by(table@, path@.parts),
        DeviceSource::Proc { table: None, .. } => None,
        DeviceSource::FileSystem(Some(field)) => {
            let name = text::shown(c_text(field@));
            if name.len() == 0 {
                None
            } else {
                Some(name)
            }
        },
        DeviceSource::FileSystem(None) => None,
        DeviceSource::Volume(Some(root)) => Some(path::displayed(Platform::Windows, root@.text)),
        DeviceSource::Volume(None) => None,
    }
}

/// The device a path's filesystem is mounted from, such as `/dev/nvme0n1p2`
/// or `/dev/disk3s5`; on Windows the volume it is on, such as `C:\`, a share,
/// or the folder a volume is mounted on. `None` where that cannot be read.
pub fn device_for(source: &DeviceSource) -> (r: Option<String>)
    ensures
        (match r {
            Some(device) => Some(device@),
            None => None,
        }) == device_name(*source),
{
    match source {
        DeviceSource::Proc { table, path } => match table {
            Some(table) => device_in(table.as_str(), path),
            None => None,
        },
        DeviceSource::FileSystem(field) => match field {
            Some(field) => {
                let name = c_chars(field.as_slice());
                if text::chars_of(name.as_str()).len() == 0 {
                    None
                } else {
                    Some(name)
                }
            },
            None => None,
        },
        DeviceSource::Volume(root) => match root {
            Some(root) => Some(root.display(Platform::Windows)),
            None => None,
        },
    }
}

/// The path whose file system macOS is asked for the device of `path`: `/`
/// is a snapshot of the system volume, so the disk the user's files are on
/// is named instead, which is what the meter measures.
pub fn device_path(path: &PathBuf) -> (r: PathBuf)
    ensures
        r@ == if path@.parts == seq![Part::Root] {
            guards::text_path(guards::MACOS_DATA_VOLUME@)
        } else {
            path@
        },
{
    if is_top(path) {
        PathBuf::of(guards::MACOS_DATA_VOLUME)
    } else {
        path.clone()
    }
}

/// Whether `path` is the top of the filesystem.
fn is_top(path: &PathBuf) -> (r: bool)
    ensures
        r == (path@.parts == seq![Part::Root]),
{
    if path.parts.len() != 1 {
        assert(path@.parts.len() != 1);
        return false;
    }
    assert(path@.parts[0] == path.parts@[0]@);
    let root: bool = match &path.parts[0] {
        Component::RootDir => true,
        _ => false,
    };
    assert(root ==> path@.parts =~= seq![Part::Root]);
    root
}

/// Where the volume of a path is mounted, as its platform tells.
pub enum VolumeSource {
    /// The text of `/proc/self/mounts`, and the path, resolved or as it is.
    Proc { table: Option<String>, path: PathBuf },
    /// The name the file system says it is mounted on.
    FileSystem(Option<Vec<u8>>),
    /// The root of the volume the path is on.
    Volume(Option<PathBuf>),
}

/// The top of the volume of a path.
pub open spec fn volume_top(source: VolumeSource) -> Option<PathView> {
    match source {
        VolumeSource::Proc { table: Some(table), path } => disk_top(
            mounts_of(text::lines(table@)),
            path@.parts,
        ),
        VolumeSource::Proc { table: None, .. } => None,
        VolumeSource::FileSystem(Some(field)) => {
            let name = text::shown(c_text(field@));
            let mount = guards::text_path(name);
            if name.len() == 0 {
                None
            } else if mount.parts == guards::text_path(guards::MACOS_DATA_VOLUME@).parts {
                Some(guards::text_path("/"@))
            } else {
                Some(mount)
            }
        },
        VolumeSource::FileSystem(None) => None,
        VolumeSource::Volume(Some(root)) => Some(root@),
        VolumeSource::Volume(None) => None,
    }
}

/// The top of the disk a path lives on. On macOS the Data volume answers
/// `/System/Volumes/Data`, but the disk a user thinks of is `/`, which shows
/// the same files under the names Finder uses and adds the system volume
/// beside them. On Windows it is its drive, such as `C:\`.
pub fn volume_root_for(source: &VolumeSource) -> (r: Option<PathBuf>)
    ensures
        (match r {
            Some(top) => Some(top@),
            None => None,
        }) == volume_top(*source),
{
    match source {
        VolumeSource::Proc { table, path } => match table {
            Some(table) => volume_root(parse_mounts(table.as_str()).as_slice(), path),
            None => None,
        },
        VolumeSource::FileSystem(field) => match field {
            Some(field) => {
                let name = c_chars(field.as_slice());
                if text::chars_of(name.as_str()).len() == 0 {
                    return None;
                }
                let mount = PathBuf::of(name.as_str());
                if mount.same(&PathBuf::of(guards::MACOS_DATA_VOLUME)) {
                    Some(PathBuf::of("/"))
                } else {
                    Some(mount)
                }
            },
            None => None,
        },
        VolumeSource::Volume(root) => match root {
            Some(root) => Some(root.clone()),
            None => None,
        },
    }
}

/// The mount points below `root` that a scan of its volume must not enter,
/// by the text of `/proc/self/mounts`: `None` when that cannot be read, so
/// the caller can fall back to comparing devices. On Windows there are none:
/// the only way into another volume below `root` is a folder it is mounted
/// on, which is a reparse point the walk treats as a link.
pub fn foreign_mounts_for(platform: Platform, table: Option<&str>, root: &PathBuf) -> (r: Option<
    Vec<PathBuf>,
>)
    ensures
        match platform {
            Platform::Windows => r matches Some(points) && points@.len() == 0,
            _ => match table {
                Some(table) => r matches Some(points) && points.deep_view() == foreign_points(
                    mounts_of(text::lines(table@)),
                    root@.parts,
                ),
                None => r is None,
            },
        },
{
    match platform {
        Platform::Windows => Some(Vec::new()),
        _ => match table {
            Some(table) => Some(foreign_mounts(parse_mounts(table).as_slice(), root)),
            None => None,
        },
    }
}

// ---------------------------------------------------------------------
// What is never scanned.
// ---------------------------------------------------------------------

/// `skip`, in the spelling of `root`, where it is strictly below where
/// `root` really is.
pub open spec fn skipped(
    skip: Seq<char>,
    root: PathView,
    canonical: Seq<Part>,
) -> Seq<PathView> {
    let parts = guards::text_path(skip).parts;
    if path::inside(parts, canonical) && parts.len() > canonical.len() {
        seq![path::joined(Platform::MacOs, root, parts.skip(canonical.len() as int))]
    } else {
        seq![]
    }
}

/// Directories under the root a scan must never enter.
pub open spec fn always_skipped(
    platform: Platform,
    root: PathView,
    canonical: Seq<Part>,
) -> Seq<PathView> {
    if platform is MacOs {
        skipped(guards::MACOS_DATA_VOLUME@, root, canonical) + skipped(
            "/Network"@,
            root,
            canonical,
        )
    } else {
        seq![]
    }
}

/// Add `skip` to `out`, in the spelling of `root`, where it is strictly
/// below where `root` really is.
fn push_skipped(out: &mut Vec<PathBuf>, skip: &str, root: &PathBuf, canonical: &PathBuf)
    ensures
        final(out).deep_view() == old(out).deep_view() + skipped(
            skip@,
            root@,
            canonical@.parts,
        ),
{
    let ghost before = out.deep_view();
    let place = PathBuf::of(skip);
    if let Some(below) = place.strip_prefix(canonical) {
        assert(below.deep_view().len() == below@.len());
        if below.len() > 0 {
            assert(place@.parts.len() > canonical@.parts.len());
            let path = root.join(Platform::MacOs, &below);
            let ghost view = path@;
            out.push(path);
            assert(out.deep_view() =~= before + seq![view]);
            return;
        }
        assert(place@.parts.skip(canonical@.parts.len() as int).len() == 0);
    }
    assert(before + Seq::<PathView>::empty() =~= before);
}

/// Directories under `root` a scan must never enter, whatever the volume
/// rules say, given where `root` really is (`canonical`).
///
/// On macOS: the Data volume's second mount, which is every firmlinked
/// directory again under another name, so walking it counts the disk twice;
/// and `/Network`, an automount point that would reach for a server. The
/// paths are returned in `root`'s own spelling, because that is how the walk
/// names what it finds.
pub fn never_scanned(platform: Platform, root: &PathBuf, canonical: &PathBuf) -> (r: Vec<PathBuf>)
    ensures
        r.deep_view() == always_skipped(platform, root@, canonical@.parts),
{
    let mut out: Vec<PathBuf> = Vec::new();
    assert(out.deep_view() =~= Seq::<PathView>::empty());
    if let Platform::MacOs = platform {
        push_skipped(&mut out, guards::MACOS_DATA_VOLUME, root, canonical);
        assert(Seq::<PathView>::empty() + skipped(
            guards::MACOS_DATA_VOLUME@,
            root@,
            canonical@.parts,
        ) =~= skipped(guards::MACOS_DATA_VOLUME@, root@, canonical@.parts));
        push_skipped(&mut out, "/Network", root, canonical);
    }
    out
}

// ---------------------------------------------------------------------
// What holds of every mount table.
// ---------------------------------------------------------------------

/// The mount a path is on is one the path is at or below, and none that it
/// is at or below is spelled longer.
pub proof fn lemma_own_mount(mounts: Seq<MountView>, path: Seq<Part>)
    ensures
        match own_mount(mounts, path) {
            Some(own) => mounts.contains(own) && path::inside(path, own.point.parts) && forall|
                i: int,
            |
                0 <= i < mounts.len() && path::inside(path, (#[trigger] mounts[i]).point.parts)
                    ==> mounts[i].point.text.len() <= own.point.text.len(),
            None => forall|i: int|
                0 <= i < mounts.len() ==> !path::inside(
                    path,
                    (#[trigger] mounts[i]).point.parts,
                ),
        },
{
    let candidates = lists::kept(mounts, over(path));
    lists::lemma_kept(mounts, over(path));
    lists::lemma_last_largest(candidates, point_length());
    assert forall|i: int| 0 <= i < mounts.len() && path::inside(
        path,
        (#[trigger] mounts[i]).point.parts,
    ) implies candidates.contains(mounts[i]) by {
        assert(mounts.contains(mounts[i]));
    }
    if let Some(own) = own_mount(mounts, path) {
        assert(candidates.contains(own));
        assert forall|i: int| 0 <= i < mounts.len() && path::inside(
            path,
            (#[trigger] mounts[i]).point.parts,
        ) implies mounts[i].point.text.len() <= own.point.text.len() by {
            let k = choose|k: int| 0 <= k < candidates.len() && candidates[k] == mounts[i];
            assert(candidates[k] == mounts[i]);
        }
    }
}

/// What a scan must not enter is strictly below its root, and every other
/// mount below the root is of the root's own source and type and of no
/// snapshots.
pub proof fn lemma_foreign_mounts(mounts: Seq<MountView>, root: Seq<Part>)
    requires
        own_mount(mounts, root) is Some,
    ensures
        forall|i: int|
            0 <= i < mounts.len() && path::inside((#[trigger] mounts[i]).point.parts, root)
                && mounts[i].point.parts != root ==> {
                ||| foreign_points(mounts, root).contains(mounts[i].point)
                ||| mounts[i].source == own_mount(mounts, root)->0.source && mounts[i].fstype
                    == own_mount(mounts, root)->0.fstype && !of_snapshots(mounts[i])
            },
        forall|i: int|
            0 <= i < foreign_points(mounts, root).len() ==> path::inside(
                (#[trigger] foreign_points(mounts, root)[i]).parts,
                root,
            ) && foreign_points(mounts, root)[i].parts != root,
{
    let own = own_mount(mounts, root)->0;
    let fits = is_foreign(root, own);
    let foreign = lists::kept(mounts, fits);
    lists::lemma_kept(mounts, fits);
    let points = foreign_points(mounts, root);
    assert forall|i: int|
        0 <= i < mounts.len() && path::inside((#[trigger] mounts[i]).point.parts, root)
            && mounts[i].point.parts != root implies {
        ||| points.contains(mounts[i].point)
        ||| mounts[i].source == own.source && mounts[i].fstype == own.fstype && !of_snapshots(
            mounts[i],
        )
    } by {
        if fits(mounts[i]) {
            assert(mounts.contains(mounts[i]));
            assert(foreign.contains(mounts[i]));
            let k = choose|k: int| 0 <= k < foreign.len() && foreign[k] == mounts[i];
            assert(points[k] == mounts[i].point);
        }
    }
    assert forall|i: int| 0 <= i < points.len() implies path::inside(
        (#[trigger] points[i]).parts,
        root,
    ) && points[i].parts != root by {
        assert(foreign.contains(foreign[i]));
    }
}

/// The top of a path's disk is there whenever the path is on any mount. It
/// is a mount point of the path's own volume that the path is at or below,
/// and none of those is spelled shorter.
pub proof fn lemma_disk_top(mounts: Seq<MountView>, path: Seq<Part>)
    ensures
        disk_top(mounts, path) is Some == own_mount(mounts, path) is Some,
        disk_top(mounts, path) matches Some(top) ==> {
            let fits = same_disk(path, own_mount(mounts, path)->0);
            &&& path::inside(path, top.parts)
            &&& exists|i: int|
                0 <= i < mounts.len() && fits(#[trigger] mounts[i]) && mounts[i].point == top
            &&& forall|i: int|
                0 <= i < mounts.len() && fits(#[trigger] mounts[i]) ==> top.text.len()
                    <= mounts[i].point.text.len()
        },
{
    if let Some(own) = own_mount(mounts, path) {
        lemma_own_mount(mounts, path);
        let fits = same_disk(path, own);
        let candidates = lists::kept(mounts, fits);
        lists::lemma_kept(mounts, fits);
        lists::lemma_first_smallest(candidates, point_length());
        assert(candidates.contains(own));
        if let Some(best) = lists::first_smallest(candidates, point_length()) {
            assert(candidates.contains(best));
            assert(mounts.contains(best) && fits(best));
            assert forall|i: int|
                0 <= i < mounts.len() && fits(#[trigger] mounts[i]) implies best.point.text.len()
                <= mounts[i].point.text.len() by {
                assert(mounts.contains(mounts[i]));
                assert(candidates.contains(mounts[i]));
                let k = choose|k: int| 0 <= k < candidates.len() && candidates[k] == mounts[i];
                assert(point_length()(candidates[k]) >= point_length()(best));
            }
        }
    }
}

} // verus!
