//! The mount table: what is mounted where, as the guards compare it.

use vstd::prelude::*;

use crate::guards;
use crate::lists;
use crate::path;
use crate::path::{Part, PathBuf, PathView};
use crate::platform::Platform;
use crate::text;

verus! {

// ---------------------------------------------------------------------
// Reading the Linux table.
// ---------------------------------------------------------------------

/// Why a mount table cannot be used. Lines are counted from one.
#[derive(Clone, Copy, Debug, PartialEq, Eq, Structural)]
pub enum MountTableError {
    MalformedLine(usize),
    MalformedPath(usize),
    InvalidEscape(usize),
    NulInPath(usize),
    RelativePath(usize),
    NoRoot,
    MacosUnreadable,
    MacosUnparsed,
    WindowsUnreadable,
}

/// What is wrong with one line.
#[derive(Clone, Copy, Debug, PartialEq, Eq, Structural)]
pub enum LineFault {
    Malformed,
    Path,
    Escape,
    Nul,
    Relative,
}

/// An octal digit.
pub open spec fn is_octal(byte: u8) -> bool {
    48 <= byte <= 55
}

/// The number three octal digits write.
pub open spec fn octal(a: u8, b: u8, c: u8) -> int {
    (a - 48) * 64 + (b - 48) * 8 + (c - 48)
}

/// `bytes` in front of what `rest` holds, unless it is a fault.
pub open spec fn in_front(bytes: Seq<u8>, rest: Result<Seq<u8>, LineFault>) -> Result<
    Seq<u8>,
    LineFault,
> {
    match rest {
        Ok(more) => Ok(bytes + more),
        Err(fault) => Err(fault),
    }
}

/// A mount path with its escapes decoded: a backslash and three octal digits
/// are the byte they number, and no byte is zero.
pub open spec fn unescaped(encoded: Seq<u8>) -> Result<Seq<u8>, LineFault>
    decreases encoded.len(),
{
    if encoded.len() == 0 {
        Ok(seq![])
    } else if encoded[0] != 92 {
        in_front(seq![encoded[0]], unescaped(encoded.skip(1)))
    } else if encoded.len() < 4 || !is_octal(encoded[1]) || !is_octal(encoded[2]) || !is_octal(
        encoded[3],
    ) {
        Err(LineFault::Path)
    } else {
        let value = octal(encoded[1], encoded[2], encoded[3]);
        if value > 255 {
            Err(LineFault::Escape)
        } else if value == 0 {
            Err(LineFault::Nul)
        } else {
            in_front(seq![value as u8], unescaped(encoded.skip(4)))
        }
    }
}

/// Decode the escapes of a mount path.
pub fn unescape(encoded: &[u8]) -> (r: Result<Vec<u8>, LineFault>)
    ensures
        match r {
            Ok(decoded) => unescaped(encoded@) == Ok::<Seq<u8>, LineFault>(decoded@),
            Err(fault) => unescaped(encoded@) == Err::<Seq<u8>, LineFault>(fault),
        },
{
    let mut decoded: Vec<u8> = Vec::new();
    let mut index: usize = 0;
    assert(encoded@.skip(0) =~= encoded@);
    assert(in_front(decoded@, unescaped(encoded@)) == unescaped(encoded@)) by {
        if let Ok(more) = unescaped(encoded@) {
            assert(decoded@ + more =~= more);
        }
    }
    while index < encoded.len()
        invariant
            index <= encoded@.len(),
            unescaped(encoded@) == in_front(decoded@, unescaped(encoded@.skip(index as int))),
        decreases encoded@.len() - index,
    {
        let ghost rest = encoded@.skip(index as int);
        let ghost before = decoded@;
        if encoded[index] != 92 {
            let byte = encoded[index];
            decoded.push(byte);
            index += 1;
            proof {
                assert(rest.skip(1) =~= encoded@.skip(index as int));
                if let Ok(more) = unescaped(encoded@.skip(index as int)) {
                    assert(before + (seq![byte] + more) =~= decoded@ + more);
                }
            }
            continue;
        }
        if encoded.len() - index < 4 {
            return Err(LineFault::Path);
        }
        let a = encoded[index + 1];
        let b = encoded[index + 2];
        let c = encoded[index + 3];
        assert(rest[1] == a && rest[2] == b && rest[3] == c);
        if a < 48 || a > 55 || b < 48 || b > 55 || c < 48 || c > 55 {
            return Err(LineFault::Path);
        }
        let value: u16 = ((a - 48) as u16) * 64 + ((b - 48) as u16) * 8 + ((c - 48) as u16);
        assert(value as int == octal(a, b, c));
        if value > 255 {
            return Err(LineFault::Escape);
        }
        if value == 0 {
            return Err(LineFault::Nul);
        }
        let byte: u8 = value as u8;
        decoded.push(byte);
        index += 4;
        proof {
            assert(rest.skip(4) =~= encoded@.skip(index as int));
            if let Ok(more) = unescaped(encoded@.skip(index as int)) {
                assert(before + (seq![byte] + more) =~= decoded@ + more);
            }
        }
    }
    assert(encoded@.skip(index as int) =~= Seq::<u8>::empty());
    assert(decoded@ + Seq::<u8>::empty() =~= decoded@);
    Ok(decoded)
}

/// A byte as a backslash and three octal digits.
pub open spec fn octal_escape(byte: u8) -> Seq<u8> {
    seq![92u8, (48 + byte / 64) as u8, (48 + byte / 8 % 8) as u8, (48 + byte % 8) as u8]
}

/// A mount path as the kernel writes it, where `escapes` says which bytes it
/// escapes.
pub open spec fn escaped(path: Seq<u8>, escapes: spec_fn(u8) -> bool) -> Seq<u8>
    decreases path.len(),
{
    if path.len() == 0 {
        seq![]
    } else {
        (if escapes(path[0]) {
            octal_escape(path[0])
        } else {
            seq![path[0]]
        }) + escaped(path.skip(1), escapes)
    }
}

/// Every mount path the kernel writes is read back as it is, whichever bytes
/// it escapes, as long as the backslash is among them. (No path holds a NUL.)
pub proof fn lemma_kernel_escapes(path: Seq<u8>, escapes: spec_fn(u8) -> bool)
    requires
        escapes(92),
        !path.contains(0),
    ensures
        unescaped(escaped(path, escapes)) == Ok::<Seq<u8>, LineFault>(path),
    decreases path.len(),
{
    if path.len() > 0 {
        let rest = path.skip(1);
        assert(!rest.contains(0)) by {
            assert forall|i: int| 0 <= i < rest.len() implies rest[i] != 0 by {
                assert(rest[i] == path[i + 1]);
            }
        }
        lemma_kernel_escapes(rest, escapes);
        let byte = path[0];
        let all = escaped(path, escapes);
        if escapes(byte) {
            let first = octal_escape(byte);
            assert(all.skip(4) =~= escaped(rest, escapes));
            assert(all[0] == first[0] && all[1] == first[1] && all[2] == first[2] && all[3]
                == first[3]);
            assert(octal(first[1], first[2], first[3]) == byte);
        } else {
            assert(all[0] == byte);
            assert(all.skip(1) =~= escaped(rest, escapes));
        }
        assert(seq![byte] + rest =~= path);
    } else {
        assert(path =~= Seq::<u8>::empty());
    }
}

/// The mount point a line of the table names: six fields, the last two
/// numbers, and an absolute path in the second.
pub open spec fn line_point(line: Seq<char>) -> Result<Seq<u8>, LineFault> {
    let all = text::fields(line);
    if all.len() != 6 || !text::is_u32(all[4]) || !text::is_u32(all[5]) {
        Err(LineFault::Malformed)
    } else {
        match unescaped(vstd::utf8::encode_utf8(all[1])) {
            Err(fault) => Err(fault),
            Ok(point) => if path::rooted(point) {
                Ok(point)
            } else {
                Err(LineFault::Relative)
            },
        }
    }
}

/// Read the mount point a line of the table names.
pub fn read_line(line: &[char]) -> (r: Result<Vec<u8>, LineFault>)
    ensures
        match r {
            Ok(point) => line_point(line@) == Ok::<Seq<u8>, LineFault>(point@),
            Err(fault) => line_point(line@) == Err::<Seq<u8>, LineFault>(fault),
        },
{
    let all = text::split_whitespace(line);
    if all.len() != 6 || !text::reads_u32(all[4].as_slice()) || !text::reads_u32(
        all[5].as_slice(),
    ) {
        return Err(LineFault::Malformed);
    }
    let mount = text::string_of(all[1].as_slice());
    match unescape(mount.as_str().as_bytes()) {
        Err(fault) => Err(fault),
        Ok(point) => {
            if point.len() > 0 && point[0] == 47 {
                Ok(point)
            } else {
                Err(LineFault::Relative)
            }
        },
    }
}

/// A fault, said of the line it is on.
pub open spec fn at_line(fault: LineFault, line: usize) -> MountTableError {
    match fault {
        LineFault::Malformed => MountTableError::MalformedLine(line),
        LineFault::Path => MountTableError::MalformedPath(line),
        LineFault::Escape => MountTableError::InvalidEscape(line),
        LineFault::Nul => MountTableError::NulInPath(line),
        LineFault::Relative => MountTableError::RelativePath(line),
    }
}

/// The keys of the mount points `lines` name, in order, or the fault of the
/// first line that has one. Empty lines name nothing.
pub open spec fn line_points(lines: Seq<Seq<char>>) -> Result<Seq<PathView>, MountTableError>
    decreases lines.len(),
{
    if lines.len() == 0 {
        Ok(seq![])
    } else {
        match line_points(lines.drop_last()) {
            Err(error) => Err(error),
            Ok(points) => if lines.last().len() == 0 {
                Ok(points)
            } else {
                match line_point(lines.last()) {
                    Err(fault) => Err(at_line(fault, lines.len() as usize)),
                    Ok(point) => Ok(
                        points.push(guards::key(Platform::Linux, path::unix_parts(point))),
                    ),
                }
            },
        }
    }
}

/// `points` has the root of the filesystem.
pub open spec fn has_root(points: Seq<PathView>) -> bool {
    exists|i: int| 0 <= i < points.len() && (#[trigger] points[i]).parts == seq![Part::Root]
}

/// The mount points of a Linux mount table, as guard keys. A table with any
/// faulty line, or without the root, names none.
pub open spec fn linux_points(table: Seq<char>) -> Result<Seq<PathView>, MountTableError> {
    match line_points(text::lines(table)) {
        Err(error) => Err(error),
        Ok(points) => if has_root(points) {
            Ok(points)
        } else {
            Err(MountTableError::NoRoot)
        },
    }
}

/// What a reading of mount points comes to.
pub open spec fn reads_as(
    r: Result<Vec<PathBuf>, MountTableError>,
    points: Result<Seq<PathView>, MountTableError>,
) -> bool {
    match r {
        Ok(paths) => points == Ok::<Seq<PathView>, MountTableError>(paths.deep_view()),
        Err(error) => points == Err::<Seq<PathView>, MountTableError>(error),
    }
}

/// A fault, said of the line it is on.
fn fault_at(fault: LineFault, line: usize) -> (r: MountTableError)
    ensures
        r == at_line(fault, line),
{
    match fault {
        LineFault::Malformed => MountTableError::MalformedLine(line),
        LineFault::Path => MountTableError::MalformedPath(line),
        LineFault::Escape => MountTableError::InvalidEscape(line),
        LineFault::Nul => MountTableError::NulInPath(line),
        LineFault::Relative => MountTableError::RelativePath(line),
    }
}

proof fn lemma_line_points_error(lines: Seq<Seq<char>>, n: int)
    requires
        0 <= n <= lines.len(),
        line_points(lines.take(n)) is Err,
    ensures
        line_points(lines) == line_points(lines.take(n)),
    decreases lines.len() - n,
{
    if n == lines.len() {
        assert(lines.take(n) =~= lines);
    } else {
        assert(lines.take(n + 1).drop_last() =~= lines.take(n));
        lemma_line_points_error(lines, n + 1);
    }
}

/// The mount points in `/proc/self/mounts`, as guard keys.
///
/// Strict, because a removal relies on it: a table that is not understood to
/// its last line, or does not name the root, is refused as a whole.
pub fn parse_linux_mount_points(table: &str) -> (r: Result<Vec<PathBuf>, MountTableError>)
    ensures
        reads_as(r, linux_points(table@)),
{
    let all = text::chars_of(table);
    let lines = text::split_lines(all.as_slice());
    let ghost whole = text::lines(table@);
    let mut points: Vec<PathBuf> = Vec::new();
    let mut found = false;
    let mut i: usize = 0;
    assert(points.deep_view() =~= Seq::<PathView>::empty());
    assert(whole.take(0) =~= Seq::<Seq<char>>::empty());
    while i < lines.len()
        invariant
            i <= lines@.len(),
            whole == text::lines(table@),
            lines@.len() == whole.len(),
            forall|k: int| 0 <= k < lines@.len() ==> (#[trigger] lines@[k])@ == whole[k],
            line_points(whole.take(i as int)) == Ok::<Seq<PathView>, MountTableError>(
                points.deep_view(),
            ),
            found == has_root(points.deep_view()),
        decreases lines@.len() - i,
    {
        let ghost next = whole.take(i + 1);
        let ghost before = points.deep_view();
        proof {
            assert(next.drop_last() =~= whole.take(i as int));
            assert(next.last() == whole[i as int]);
        }
        if lines[i].len() == 0 {
            i += 1;
            continue;
        }
        match read_line(lines[i].as_slice()) {
            Err(fault) => {
                proof {
                    lemma_line_points_error(whole, i + 1);
                }
                return Err(fault_at(fault, i + 1));
            },
            Ok(point) => {
                let key = guards::guard_key(Platform::Linux, &PathBuf::unix(point));
                let root: bool = key.parts.len() == 1 && match &key.parts[0] {
                    path::Component::RootDir => true,
                    _ => false,
                };
                proof {
                    assert(key@.parts.len() == 1 ==> key@.parts[0] == key.parts@[0]@);
                    assert(root == (key@.parts =~= seq![Part::Root]));
                    let after = before.push(key@);
                    assert(after[after.len() - 1] == key@);
                    if found {
                        let k = choose|k: int|
                            0 <= k < before.len() && (#[trigger] before[k]).parts
                                == seq![Part::Root];
                        assert(after[k] == before[k]);
                    }
                    if has_root(after) && !root {
                        let k = choose|k: int|
                            0 <= k < after.len() && (#[trigger] after[k]).parts
                                == seq![Part::Root];
                        assert(after[k] == before[k]);
                    }
                }
                if root {
                    found = true;
                }
                points.push(key);
                assert(points.deep_view() =~= before.push(key@));
            },
        }
        i += 1;
    }
    assert(whole.take(whole.len() as int) =~= whole);
    if found {
        Ok(points)
    } else {
        Err(MountTableError::NoRoot)
    }
}

// ---------------------------------------------------------------------
// What is said of a table that cannot be used.
// ---------------------------------------------------------------------

impl MountTableError {
    /// What is said of it.
    pub open spec fn said(self) -> Seq<char> {
        match self {
            MountTableError::MalformedLine(line) => "malformed Linux mount table line "@
                + text::decimal(line as nat),
            MountTableError::MalformedPath(line) => "malformed mount path on line "@
                + text::decimal(line as nat),
            MountTableError::InvalidEscape(line) => "invalid mount path escape on line "@
                + text::decimal(line as nat),
            MountTableError::NulInPath(line) => "NUL in mount path on line "@ + text::decimal(
                line as nat,
            ),
            MountTableError::RelativePath(line) => "relative mount path on line "@
                + text::decimal(line as nat),
            MountTableError::NoRoot => "could not parse the Linux mount table root"@,
            MountTableError::MacosUnreadable => "could not read the macOS mount table"@,
            MountTableError::MacosUnparsed => "could not parse the macOS mount table"@,
            MountTableError::WindowsUnreadable => "could not read the Windows volume mounts"@,
        }
    }

    /// What is said of it.
    pub fn message(self) -> (r: String)
        ensures
            r@ == self.said(),
    {
        match self {
            MountTableError::MalformedLine(line) => numbered(
                "malformed Linux mount table line ",
                line,
            ),
            MountTableError::MalformedPath(line) => numbered(
                "malformed mount path on line ",
                line,
            ),
            MountTableError::InvalidEscape(line) => numbered(
                "invalid mount path escape on line ",
                line,
            ),
            MountTableError::NulInPath(line) => numbered("NUL in mount path on line ", line),
            MountTableError::RelativePath(line) => numbered("relative mount path on line ", line),
            MountTableError::NoRoot => "could not parse the Linux mount table root".to_owned(),
            MountTableError::MacosUnreadable => "could not read the macOS mount table".to_owned(),
            MountTableError::MacosUnparsed => "could not parse the macOS mount table".to_owned(),
            MountTableError::WindowsUnreadable => "could not read the Windows volume mounts".to_owned(),
        }
    }
}

/// `words`, then the number of a line.
fn numbered(words: &str, line: usize) -> (r: String)
    ensures
        r@ == words@ + text::decimal(line as nat),
{
    let mut out = words.to_owned();
    text::push_decimal(&mut out, line as u64);
    out
}

// ---------------------------------------------------------------------
// Reading the mounts of any platform.
// ---------------------------------------------------------------------

/// What a platform gives to read its mount points from.
pub enum MountSource {
    /// The text of `/proc/self/mounts`.
    Proc(String),
    /// What `/sbin/mount` printed, and whether it succeeded.
    MountCommand { success: bool, output: Vec<u8> },
    /// The paths the volumes of Windows are mounted at.
    Volumes(Vec<PathBuf>),
    /// A platform without a list.
    Nothing,
}

/// The point one line of macOS's `mount` names: between the first ` on `
/// and the last ` (`, so a name with spaces or brackets in it survives.
pub open spec fn macos_point(line: Seq<char>) -> Option<Seq<char>> {
    match text::cut_first(line, " on "@) {
        None => None,
        Some((_, rest)) => match text::cut_last(rest, " ("@) {
            None => None,
            Some((point, _)) => Some(point),
        },
    }
}

/// The points the lines of macOS's `mount` name, in order.
pub open spec fn macos_points(lines: Seq<Seq<char>>) -> Seq<PathView>
    decreases lines.len(),
{
    if lines.len() == 0 {
        seq![]
    } else {
        let front = macos_points(lines.drop_last());
        match macos_point(lines.last()) {
            None => front,
            Some(point) => front.push(guards::text_path(point)),
        }
    }
}

/// The mount points in what macOS's `mount` prints, one per line:
/// `/dev/disk3s5 on /System/Volumes/Data (apfs, local, ...)`.
pub fn parse_macos_mounts(output: &str) -> (r: Vec<PathBuf>)
    ensures
        r.deep_view() == macos_points(text::lines(output@)),
{
    let all = text::chars_of(output);
    let lines = text::split_lines(all.as_slice());
    let ghost whole = text::lines(output@);
    let on = text::chars_of(" on ");
    let open = text::chars_of(" (");
    let mut points: Vec<PathBuf> = Vec::new();
    let mut i: usize = 0;
    assert(points.deep_view() =~= macos_points(whole.take(0)));
    while i < lines.len()
        invariant
            i <= lines@.len(),
            lines@.len() == whole.len(),
            forall|k: int| 0 <= k < lines@.len() ==> (#[trigger] lines@[k])@ == whole[k],
            on@ == " on "@,
            open@ == " ("@,
            points.deep_view() == macos_points(whole.take(i as int)),
        decreases lines@.len() - i,
    {
        let ghost before = points.deep_view();
        proof {
            assert(whole.take(i + 1).drop_last() =~= whole.take(i as int));
            assert(whole.take(i + 1).last() == whole[i as int]);
        }
        if let Some((_, rest)) = text::split_once(lines[i].as_slice(), on.as_slice()) {
            if let Some((point, _)) = text::rsplit_once(rest.as_slice(), open.as_slice()) {
                let name = text::string_of(point.as_slice());
                let path = PathBuf::of(name.as_str());
                points.push(path);
                assert(points.deep_view() =~= before.push(guards::text_path(point@)));
            }
        }
        assert(points.deep_view() =~= macos_points(whole.take(i + 1)));
        i += 1;
    }
    assert(whole.take(whole.len() as int) =~= whole);
    points
}

/// The keys of `points`.
pub open spec fn keys_of(platform: Platform, points: Seq<PathView>) -> Seq<PathView> {
    points.map_values(|point: PathView| guards::key(platform, point.parts))
}

/// The keys of `points`.
pub fn guard_keys(platform: Platform, points: &[PathBuf]) -> (r: Vec<PathBuf>)
    ensures
        r.deep_view() == keys_of(platform, points.deep_view()),
{
    let mut keys: Vec<PathBuf> = Vec::new();
    let mut i: usize = 0;
    while i < points.len()
        invariant
            i <= points@.len(),
            keys@.len() == i,
            forall|j: int|
                0 <= j < i ==> (#[trigger] keys@[j])@ == guards::key(platform, points@[j]@.parts),
        decreases points@.len() - i,
    {
        keys.push(guards::guard_key(platform, &points[i]));
        i += 1;
    }
    assert(keys.deep_view() =~= keys_of(platform, points.deep_view()));
    keys
}

/// The mount points `source` names, as guard keys; an error where the list
/// cannot be read or understood.
pub open spec fn source_points(source: MountSource) -> Result<Seq<PathView>, MountTableError> {
    match source {
        MountSource::Proc(table) => linux_points(table@),
        MountSource::MountCommand { success, output } => {
            let points = macos_points(text::lines(text::shown(output@)));
            if !success {
                Err(MountTableError::MacosUnreadable)
            } else if points.len() == 0 {
                Err(MountTableError::MacosUnparsed)
            } else {
                Ok(keys_of(Platform::MacOs, points))
            }
        },
        MountSource::Volumes(points) => if points@.len() == 0 {
            Err(MountTableError::WindowsUnreadable)
        } else {
            Ok(keys_of(Platform::Windows, points.deep_view()))
        },
        MountSource::Nothing => Ok(seq![]),
    }
}

/// Read the mount points now: from `/proc/self/mounts`, on macOS from
/// `mount`, which has no `/proc`, and on Windows from the volume list.
pub fn read_mount_points(source: &MountSource) -> (r: Result<Vec<PathBuf>, MountTableError>)
    ensures
        reads_as(r, source_points(*source)),
{
    match source {
        MountSource::Proc(table) => parse_linux_mount_points(table.as_str()),
        MountSource::MountCommand { success, output } => {
            if !*success {
                return Err(MountTableError::MacosUnreadable);
            }
            let printed = text::show(output.as_slice());
            let points = parse_macos_mounts(printed.as_str());
            if points.len() == 0 {
                return Err(MountTableError::MacosUnparsed);
            }
            Ok(guard_keys(Platform::MacOs, points.as_slice()))
        },
        MountSource::Volumes(points) => {
            if points.len() == 0 {
                return Err(MountTableError::WindowsUnreadable);
            }
            Ok(guard_keys(Platform::Windows, points.as_slice()))
        },
        MountSource::Nothing => {
            let none: Vec<PathBuf> = Vec::new();
            assert(none.deep_view() =~= Seq::<PathView>::empty());
            Ok(none)
        },
    }
}

// ---------------------------------------------------------------------
// Mounts below a path.
// ---------------------------------------------------------------------

/// A mount point strictly inside the path keyed `key`, if there is one.
pub open spec fn below(key: Seq<Part>, mounts: Seq<PathView>) -> Option<PathView> {
    lists::first_where(
        mounts,
        |mount: PathView| mount.parts != key && path::inside(mount.parts, key),
    )
}

/// A mount point at or inside the path keyed `key`, if there is one.
pub open spec fn at_or_below(key: Seq<Part>, mounts: Seq<PathView>) -> Option<PathView> {
    lists::first_where(mounts, |mount: PathView| path::inside(mount.parts, key))
}

/// The first mount point strictly inside the path keyed `key`. A scan that
/// stays on one filesystem never shows what is mounted there, so the user
/// cannot have meant to remove it.
pub fn mount_below<'a>(key: &PathBuf, mounts: &'a [PathBuf]) -> (r: Option<&'a PathBuf>)
    ensures
        match r {
            Some(mount) => below(key@.parts, mounts.deep_view()) == Some(mount@),
            None => below(key@.parts, mounts.deep_view()) is None,
        },
{
    let ghost all = mounts.deep_view();
    let ghost fits = |mount: PathView| mount.parts != key@.parts && path::inside(
        mount.parts,
        key@.parts,
    );
    let mut i: usize = 0;
    while i < mounts.len()
        invariant
            i <= mounts@.len(),
            all == mounts.deep_view(),
            fits == (|mount: PathView|
                mount.parts != key@.parts && path::inside(mount.parts, key@.parts)),
            below(key@.parts, mounts.deep_view()) == lists::first_where(all, fits),
            forall|j: int| 0 <= j < i ==> !fits(#[trigger] all[j]),
        decreases mounts@.len() - i,
    {
        assert(all[i as int] == mounts@[i as int]@);
        if !mounts[i].same(key) && mounts[i].starts_with(key) {
            proof {
                lists::lemma_first_where_skip(all, i as int, fits);
            }
            return Some(&mounts[i]);
        }
        i += 1;
    }
    proof {
        lists::lemma_first_where_skip(all, i as int, fits);
    }
    None
}

/// The first mount point at or inside the path keyed `key`.
pub fn mount_at_or_below<'a>(key: &PathBuf, mounts: &'a [PathBuf]) -> (r: Option<&'a PathBuf>)
    ensures
        match r {
            Some(mount) => at_or_below(key@.parts, mounts.deep_view()) == Some(mount@),
            None => at_or_below(key@.parts, mounts.deep_view()) is None,
        },
{
    let ghost all = mounts.deep_view();
    let ghost fits = |mount: PathView| path::inside(mount.parts, key@.parts);
    let mut i: usize = 0;
    while i < mounts.len()
        invariant
            i <= mounts@.len(),
            all == mounts.deep_view(),
            fits == (|mount: PathView| path::inside(mount.parts, key@.parts)),
            at_or_below(key@.parts, mounts.deep_view()) == lists::first_where(all, fits),
            forall|j: int| 0 <= j < i ==> !fits(#[trigger] all[j]),
        decreases mounts@.len() - i,
    {
        assert(all[i as int] == mounts@[i as int]@);
        if mounts[i].starts_with(key) {
            proof {
                lists::lemma_first_where_skip(all, i as int, fits);
            }
            return Some(&mounts[i]);
        }
        i += 1;
    }
    proof {
        lists::lemma_first_where_skip(all, i as int, fits);
    }
    None
}

/// Why a Linux path must not be taken away, by the mounts read just now.
pub open spec fn boundary_refusal(
    path: PathView,
    mounts: MountsView,
    mount_point: bool,
) -> Option<Seq<char>> {
    match mounts {
        Err(reason) => Some(reason),
        Ok(mounts) => if mount_point {
            Some("refusing to remove mounted filesystem "@ + text::shown(path.text))
        } else {
            match at_or_below(guards::key(Platform::Linux, path.parts).parts, mounts) {
                Some(mount) => Some(
                    "refusing to remove mounted filesystem "@ + text::shown(mount.text)
                        + " at or inside "@ + text::shown(path.text),
                ),
                None => None,
            }
        },
    }
}

/// Check, right before a Linux path is taken away, that nothing is mounted
/// on it or inside it.
pub fn ensure_linux_mount_boundaries(
    path: &PathBuf,
    mounts: &Result<Vec<PathBuf>, String>,
    mount_point: bool,
) -> (r: Result<(), String>)
    ensures
        match r {
            Ok(_) => boundary_refusal(path@, mounts_view(*mounts), mount_point) is None,
            Err(reason) => boundary_refusal(path@, mounts_view(*mounts), mount_point) == Some(
                reason@,
            ),
        },
{
    let mounts = match mounts {
        Ok(mounts) => mounts,
        Err(reason) => {
            return Err(reason.clone());
        },
    };
    let mut reason = "refusing to remove mounted filesystem ".to_owned();
    if mount_point {
        reason.append(path.display(Platform::Linux).as_str());
        return Err(reason);
    }
    match mount_at_or_below(&guards::guard_key(Platform::Linux, path), mounts.as_slice()) {
        Some(mount) => {
            reason.append(mount.display(Platform::Linux).as_str());
            reason.append(" at or inside ");
            reason.append(path.display(Platform::Linux).as_str());
            Err(reason)
        },
        None => Ok(()),
    }
}

/// Nothing objects to a path only where the mounts are known and none is at
/// it or inside it.
pub proof fn lemma_boundaries(path: PathView, mounts: MountsView, mount_point: bool)
    requires
        boundary_refusal(path, mounts, mount_point) is None,
    ensures
        mounts is Ok,
        !mount_point,
        forall|i: int|
            0 <= i < mounts->Ok_0.len() ==> !path::inside(
                (#[trigger] mounts->Ok_0[i]).parts,
                guards::key(Platform::Linux, path.parts).parts,
            ),
{
    let key = guards::key(Platform::Linux, path.parts).parts;
    lists::lemma_first_where(mounts->Ok_0, |mount: PathView| path::inside(mount.parts, key));
}

// ---------------------------------------------------------------------
// The cached table.
// ---------------------------------------------------------------------

/// How long a read of the mount table is used before it is read again, in
/// nanoseconds. A disk plugged in is noticed within this, and the removal
/// itself stops at a mount boundary whatever the table said.
pub const MOUNTS_FRESH: u64 = 2_000_000_000;

/// The last read of the mount table, when it landed (in nanoseconds of a
/// clock that never goes back), and whether a read is under way.
#[derive(Debug)]
pub struct MountCache {
    pub read: Option<u64>,
    pub mounts: Option<Result<Vec<PathBuf>, String>>,
    pub refreshing: bool,
}

/// The mounts a plan goes by, or why there are none to go by.
pub type MountsView = Result<Seq<PathView>, Seq<char>>;

/// What a reading of mounts stands for.
pub open spec fn mounts_view(mounts: Result<Vec<PathBuf>, String>) -> MountsView {
    match mounts {
        Ok(points) => Ok(points.deep_view()),
        Err(reason) => Err(reason@),
    }
}

impl MountCache {
    /// What the cache answers.
    pub open spec fn answer(&self) -> MountsView {
        match self.mounts {
            None => Err("the mount table is still loading"@),
            Some(mounts) => mounts_view(mounts),
        }
    }

    /// Whether the last read is recent enough at `now`.
    pub open spec fn fresh(&self, now: u64) -> bool {
        self.read matches Some(read) && now - read < MOUNTS_FRESH
    }

    /// Whether a read is started at `now`: the last one is stale and none is
    /// under way.
    pub open spec fn starts(&self, now: u64) -> bool {
        !self.fresh(now) && !self.refreshing
    }

    /// A cache before the first read.
    pub fn empty() -> (r: MountCache)
        ensures
            r.read is None,
            r.mounts is None,
            !r.refreshing,
    {
        MountCache { read: None, mounts: None, refreshing: false }
    }

    /// Whether to start a read at `now`: the last one is stale and none is
    /// under way. From then on one is.
    pub fn begin_refresh(&mut self, now: u64) -> (r: bool)
        ensures
            r == old(self).starts(now),
            final(self).refreshing == (r || old(self).refreshing),
            final(self).read == old(self).read,
            final(self).mounts == old(self).mounts,
    {
        let fresh: bool = match self.read {
            None => false,
            Some(read) => now < read || now - read < MOUNTS_FRESH,
        };
        if !fresh && !self.refreshing {
            self.refreshing = true;
            return true;
        }
        false
    }

    /// A read that could not be started.
    pub fn refresh_failed(&mut self)
        ensures
            !final(self).refreshing,
            final(self).read == old(self).read,
            final(self).mounts == old(self).mounts,
    {
        self.refreshing = false;
    }

    /// A read that landed at `now`.
    pub fn landed(&mut self, mounts: Result<Vec<PathBuf>, String>, now: u64)
        ensures
            final(self).read == Some(now),
            final(self).mounts == Some(mounts),
            !final(self).refreshing,
    {
        self.mounts = Some(mounts);
        self.read = Some(now);
        self.refreshing = false;
    }
}

/// A copy of a list of paths.
pub fn copy_paths(paths: &[PathBuf]) -> (r: Vec<PathBuf>)
    ensures
        r.deep_view() == paths.deep_view(),
{
    let mut out: Vec<PathBuf> = Vec::new();
    let mut i: usize = 0;
    while i < paths.len()
        invariant
            i <= paths@.len(),
            out@.len() == i,
            forall|j: int| 0 <= j < i ==> (#[trigger] out@[j])@ == paths@[j]@,
        decreases paths@.len() - i,
    {
        out.push(paths[i].clone());
        i += 1;
    }
    assert(out.deep_view() =~= paths.deep_view());
    out
}

/// The mounts as last read, as guard keys. Before the first read lands
/// there are none to go by, and plans block every target.
pub fn cached_mounts(cache: &MountCache) -> (r: Result<Vec<PathBuf>, String>)
    ensures
        mounts_view(r) == cache.answer(),
{
    match &cache.mounts {
        None => Err("the mount table is still loading".to_owned()),
        Some(Ok(points)) => Ok(copy_paths(points.as_slice())),
        Some(Err(reason)) => Err(reason.clone()),
    }
}

/// The mounts as last read, and whether a read must be started at `now`.
///
/// Never waits for a read: a stale table is used while the next one is read
/// elsewhere.
pub fn mount_points(cache: &mut MountCache, now: u64) -> (r: (bool, Result<Vec<PathBuf>, String>))
    ensures
        r.0 == old(cache).starts(now),
        mounts_view(r.1) == old(cache).answer(),
        final(cache).refreshing == (r.0 || old(cache).refreshing),
        final(cache).read == old(cache).read,
        final(cache).mounts == old(cache).mounts,
{
    let begin: bool = cache.begin_refresh(now);
    let mounts = cached_mounts(cache);
    (begin, mounts)
}

/// Whether to start reading the mount table at `now`, so it is there by the
/// time anything is marked.
pub fn prime_mount_points(cache: &mut MountCache, now: u64) -> (r: bool)
    ensures
        r == old(cache).starts(now),
        final(cache).refreshing == (r || old(cache).refreshing),
        final(cache).read == old(cache).read,
        final(cache).mounts == old(cache).mounts,
{
    cache.begin_refresh(now)
}

/// A read is never started while another is under way, and once one landed
/// none is until it is stale; before the first, and once stale, one is.
pub proof fn lemma_one_read_at_a_time(cache: MountCache, now: u64)
    ensures
        cache.refreshing ==> !cache.starts(now),
        cache.read matches Some(read) && read <= now < read + MOUNTS_FRESH ==> !cache.starts(now),
        !cache.refreshing && cache.read is None ==> cache.starts(now),
        !cache.refreshing && (cache.read matches Some(read) && now >= read + MOUNTS_FRESH)
            ==> cache.starts(now),
{
}

} // verus!
