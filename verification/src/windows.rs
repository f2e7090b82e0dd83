//! What a walk on Windows needs to know of its file systems.
//!
//! A directory is listed with `GetFileInformationByHandleEx` and
//! `FileIdExtdDirectoryInfo`, which fills a buffer with records that carry
//! the space a file occupies and its id, for what the listing costs anyway.
//! Reading those records is here, as is comparing paths the way Windows
//! does; the calls themselves belong to the caller.

use vstd::prelude::*;

use crate::guards;
use crate::path;
use crate::path::{Part, PathBuf, PathView};
use crate::platform::Platform;
use crate::text;

verus! {

// ---------------------------------------------------------------------
// Constants of the interface.
// ---------------------------------------------------------------------

/// Bytes the file system fills per call: some hundreds of entries.
pub const BUFFER_BYTES: usize = 65_536;

/// Where a record's name starts; everything before it has a fixed size.
pub const NAME_AT: usize = 88;

/// Where a record says how far it is to the next one.
pub const NEXT_AT: usize = 0;

/// Where a record has the time of the last write.
pub const WRITTEN_AT: usize = 24;

/// Where a record has the length of the data.
pub const LENGTH_AT: usize = 40;

/// Where a record has the space allocated to the data.
pub const ALLOCATED_AT: usize = 48;

/// Where a record has the attributes.
pub const ATTRIBUTES_AT: usize = 56;

/// Where a record has the length of its name, in bytes.
pub const NAME_LENGTH_AT: usize = 60;

/// Where a record has its reparse tag.
pub const TAG_AT: usize = 68;

/// Where a record has the file id.
pub const ID_AT: usize = 72;

pub const FILE_ATTRIBUTE_HIDDEN: u32 = 0x2;

pub const FILE_ATTRIBUTE_DIRECTORY: u32 = 0x10;

pub const FILE_ATTRIBUTE_REPARSE_POINT: u32 = 0x400;

/// Reparse tags with this bit stand for another path: symbolic links,
/// junctions and mounted folders.
pub const NAME_SURROGATE: u32 = 0x2000_0000;

/// A cloud files placeholder with nothing local: opening or listing it makes
/// the provider fetch it. `RECALL_ON_OPEN` marks a directory whose entries
/// are not local, `RECALL_ON_DATA_ACCESS` one whose files are all
/// online-only.
pub const EVICTED: u32 = 0x44_0000;

/// A `FILETIME` counts 100 ns ticks from 1601; this many precede 1970.
pub const EPOCH_TICKS: i64 = 116_444_736_000_000_000;

pub const TICKS_PER_SECOND: i64 = 10_000_000;

pub const ERROR_INVALID_FUNCTION: u32 = 1;

pub const ERROR_NO_MORE_FILES: u32 = 18;

pub const ERROR_NOT_SUPPORTED: u32 = 50;

pub const ERROR_INVALID_PARAMETER: u32 = 87;

pub const ERROR_INVALID_LEVEL: u32 = 124;

// ---------------------------------------------------------------------
// Numbers.
// ---------------------------------------------------------------------

/// The number the bytes write, the least significant first.
pub open spec fn number_of(bytes: Seq<u8>) -> nat
    decreases bytes.len(),
{
    if bytes.len() == 0 {
        0
    } else {
        bytes[0] as nat + 256 * number_of(bytes.skip(1))
    }
}

/// The number in the `len` bytes of `bytes` from `at`.
pub open spec fn field(bytes: Seq<u8>, at: int, len: int) -> nat {
    number_of(bytes.subrange(at, at + len))
}

/// The signed number of 64 bits that is written like `value`.
pub open spec fn signed(value: nat) -> int {
    if value < 0x8000_0000_0000_0000 {
        value as int
    } else {
        value - 0x1_0000_0000_0000_0000
    }
}

proof fn lemma_number_step(bytes: Seq<u8>, at: int, len: int)
    requires
        0 <= at,
        0 < len,
        at + len <= bytes.len(),
    ensures
        field(bytes, at, len) == bytes[at] as nat + 256 * field(bytes, at + 1, len - 1),
{
    let part = bytes.subrange(at, at + len);
    assert(part.skip(1) =~= bytes.subrange(at + 1, at + 1 + (len - 1)));
}

/// The number of 16 bits at `at`.
fn read_u16(bytes: &[u8], at: usize) -> (r: u16)
    requires
        at + 2 <= bytes@.len(),
    ensures
        r == field(bytes@, at as int, 2),
{
    proof {
        lemma_number_step(bytes@, at as int, 2);
        lemma_number_step(bytes@, at + 1, 1);
        assert(bytes@.subrange(at + 2, at + 2) =~= Seq::<u8>::empty());
    }
    bytes[at] as u16 + 256 * (bytes[at + 1] as u16)
}

/// The number of 32 bits at `at`.
fn read_u32(bytes: &[u8], at: usize) -> (r: u32)
    requires
        at + 4 <= bytes@.len(),
    ensures
        r == field(bytes@, at as int, 4),
{
    assert(bytes@.len() == bytes.len());
    let low = read_u16(bytes, at);
    let high = read_u16(bytes, at + 2);
    proof {
        lemma_number_step(bytes@, at as int, 4);
        lemma_number_step(bytes@, at + 1, 3);
        lemma_number_step(bytes@, at as int, 2);
        lemma_number_step(bytes@, at + 1, 1);
        assert(bytes@.subrange(at + 2, at + 2) =~= Seq::<u8>::empty());
        assert(field(bytes@, at as int, 4) == field(bytes@, at as int, 2) + 65536 * field(
            bytes@,
            at + 2,
            2,
        ));
    }
    low as u32 + 65536 * (high as u32)
}

/// The number of 64 bits at `at`.
fn read_u64(bytes: &[u8], at: usize) -> (r: u64)
    requires
        at + 8 <= bytes@.len(),
    ensures
        r == field(bytes@, at as int, 8),
{
    assert(bytes@.len() == bytes.len());
    let low = read_u32(bytes, at);
    let high = read_u32(bytes, at + 4);
    proof {
        lemma_number_step(bytes@, at as int, 8);
        lemma_number_step(bytes@, at + 1, 7);
        lemma_number_step(bytes@, at + 2, 6);
        lemma_number_step(bytes@, at + 3, 5);
        lemma_number_step(bytes@, at as int, 4);
        lemma_number_step(bytes@, at + 1, 3);
        lemma_number_step(bytes@, at + 2, 2);
        lemma_number_step(bytes@, at + 3, 1);
        assert(bytes@.subrange(at + 4, at + 4) =~= Seq::<u8>::empty());
        assert(field(bytes@, at as int, 8) == field(bytes@, at as int, 4) + 0x1_0000_0000 * field(
            bytes@,
            at + 4,
            4,
        ));
    }
    low as u64 + 0x1_0000_0000 * (high as u64)
}

/// The number of 128 bits at `at`.
fn read_u128(bytes: &[u8], at: usize) -> (r: u128)
    requires
        at + 16 <= bytes@.len(),
    ensures
        r == field(bytes@, at as int, 16),
{
    assert(bytes@.len() == bytes.len());
    let low = read_u64(bytes, at);
    let high = read_u64(bytes, at + 8);
    proof {
        lemma_number_step(bytes@, at as int, 16);
        lemma_number_step(bytes@, at + 1, 15);
        lemma_number_step(bytes@, at + 2, 14);
        lemma_number_step(bytes@, at + 3, 13);
        lemma_number_step(bytes@, at + 4, 12);
        lemma_number_step(bytes@, at + 5, 11);
        lemma_number_step(bytes@, at + 6, 10);
        lemma_number_step(bytes@, at + 7, 9);
        lemma_number_step(bytes@, at as int, 8);
        lemma_number_step(bytes@, at + 1, 7);
        lemma_number_step(bytes@, at + 2, 6);
        lemma_number_step(bytes@, at + 3, 5);
        lemma_number_step(bytes@, at + 4, 4);
        lemma_number_step(bytes@, at + 5, 3);
        lemma_number_step(bytes@, at + 6, 2);
        lemma_number_step(bytes@, at + 7, 1);
        assert(bytes@.subrange(at + 8, at + 8) =~= Seq::<u8>::empty());
        assert(field(bytes@, at as int, 16) == field(bytes@, at as int, 8)
            + 0x1_0000_0000_0000_0000 * field(bytes@, at + 8, 8));
    }
    low as u128 + 0x1_0000_0000_0000_0000 * (high as u128)
}

/// The signed number of 64 bits at `at`.
fn read_i64(bytes: &[u8], at: usize) -> (r: i64)
    requires
        at + 8 <= bytes@.len(),
    ensures
        r == signed(field(bytes@, at as int, 8)),
{
    let value: u64 = read_u64(bytes, at);
    if value < 0x8000_0000_0000_0000 {
        value as i64
    } else {
        let over: i64 = (value - 0x8000_0000_0000_0000) as i64;
        i64::MIN + over
    }
}

/// A byte count the file system reports as signed; it never is negative.
pub fn bytes_from(value: i64) -> (r: u64)
    ensures
        r == if value < 0 {
            0
        } else {
            value as int
        },
{
    if value < 0 {
        0
    } else {
        value as u64
    }
}

/// A `FILETIME` as Unix seconds, `0` before 1970.
pub open spec fn seconds_of(ticks: int) -> int {
    if ticks <= EPOCH_TICKS {
        0
    } else {
        (ticks - EPOCH_TICKS) / TICKS_PER_SECOND as int
    }
}

/// A `FILETIME` as Unix seconds, `0` before 1970.
pub fn unix_seconds(ticks: i64) -> (r: i64)
    ensures
        r == seconds_of(ticks as int),
{
    if ticks <= EPOCH_TICKS {
        0
    } else {
        (ticks - EPOCH_TICKS) / TICKS_PER_SECOND
    }
}

/// The part of a 128-bit file id that names a file by itself.
///
/// NTFS keeps the high half zero, so the low half is the id. Zero is what a
/// file system without ids reports; FAT and exFAT do, and their 64-bit ids
/// are documented as not unique, so trusting them could merge two files into
/// one. ReFS ids use both halves, so hardlinks there are counted once per
/// name: that overcounts, and never drops a file's size.
pub fn file_id(id: u128) -> (r: Option<u64>)
    ensures
        match r {
            Some(low) => low == id && id != 0,
            None => id == 0 || id > u64::MAX,
        },
{
    if id == 0 || id > 0xffff_ffff_ffff_ffff {
        None
    } else {
        Some(id as u64)
    }
}

/// What names a file across volumes: the serial number of its volume and its
/// index there. Zero and all ones mean there is no usable index.
pub fn identity(volume: u64, index: u64) -> (r: Option<(u64, u64)>)
    ensures
        match r {
            Some(id) => id == (volume, index) && index != 0 && index != u64::MAX,
            None => index == 0 || index == u64::MAX,
        },
{
    if index != 0 && index != 0xffff_ffff_ffff_ffff {
        Some((volume, index))
    } else {
        None
    }
}

// ---------------------------------------------------------------------
// Wide names.
// ---------------------------------------------------------------------

/// The bytes of one code point: UTF-8, and the same form for a surrogate
/// that stands alone.
pub open spec fn point_bytes(point: u32) -> Seq<u8> {
    if point < 0x80 {
        seq![point as u8]
    } else if point < 0x800 {
        seq![(0xc0 + point / 64) as u8, (0x80 + point % 64) as u8]
    } else if point < 0x1_0000 {
        seq![
            (0xe0 + point / 4096) as u8,
            (0x80 + point / 64 % 64) as u8,
            (0x80 + point % 64) as u8,
        ]
    } else {
        seq![
            (0xf0 + point / 262144) as u8,
            (0x80 + point / 4096 % 64) as u8,
            (0x80 + point / 64 % 64) as u8,
            (0x80 + point % 64) as u8,
        ]
    }
}

/// Two units that are one code point together.
pub open spec fn is_pair(high: u16, low: u16) -> bool {
    0xd800 <= high <= 0xdbff && 0xdc00 <= low <= 0xdfff
}

/// The code point of a pair.
pub open spec fn pair_point(high: u16, low: u16) -> u32 {
    (0x1_0000 + (high - 0xd800) * 1024 + (low - 0xdc00)) as u32
}

/// The bytes of a wide name.
pub open spec fn wide_bytes(units: Seq<u16>) -> Seq<u8>
    decreases units.len(),
{
    if units.len() == 0 {
        seq![]
    } else if units.len() >= 2 && is_pair(units[0], units[1]) {
        point_bytes(pair_point(units[0], units[1])) + wide_bytes(units.skip(2))
    } else {
        point_bytes(units[0] as u32) + wide_bytes(units.skip(1))
    }
}

/// Write one code point at the end of `out`.
fn push_point(out: &mut Vec<u8>, point: u32)
    requires
        point < 0x11_0000,
    ensures
        final(out)@ == old(out)@ + point_bytes(point),
{
    if point < 0x80 {
        out.push(point as u8);
    } else if point < 0x800 {
        out.push((0xc0 + point / 64) as u8);
        out.push((0x80 + point % 64) as u8);
    } else if point < 0x1_0000 {
        out.push((0xe0 + point / 4096) as u8);
        out.push((0x80 + point / 64 % 64) as u8);
        out.push((0x80 + point % 64) as u8);
    } else {
        out.push((0xf0 + point / 262144) as u8);
        out.push((0x80 + point / 4096 % 64) as u8);
        out.push((0x80 + point / 64 % 64) as u8);
        out.push((0x80 + point % 64) as u8);
    }
    assert(out@ =~= old(out)@ + point_bytes(point));
}

/// The bytes of a wide name.
pub fn narrow(units: &[u16]) -> (r: Vec<u8>)
    ensures
        r@ == wide_bytes(units@),
{
    let ghost all = units@;
    let mut out: Vec<u8> = Vec::new();
    let mut i: usize = 0;
    assert(all.skip(0) =~= all);
    assert(out@ + wide_bytes(all) =~= wide_bytes(all));
    while i < units.len()
        invariant
            i <= units@.len(),
            all == units@,
            units@.len() == units.len(),
            out@ + wide_bytes(all.skip(i as int)) == wide_bytes(all),
        decreases units@.len() - i,
    {
        let ghost rest = all.skip(i as int);
        let ghost before = out@;
        let unit = units[i];
        assert(rest[0] == unit);
        if units.len() - i >= 2 && 0xd800 <= unit && unit <= 0xdbff && 0xdc00 <= units[i + 1]
            && units[i + 1] <= 0xdfff {
            let low = units[i + 1];
            assert(rest[1] == low);
            let point: u32 = 0x1_0000 + (unit as u32 - 0xd800) * 1024 + (low as u32 - 0xdc00);
            assert(point == pair_point(unit, low));
            push_point(&mut out, point);
            assert(rest.skip(2) =~= all.skip(i + 2));
            assert(before + (point_bytes(point) + wide_bytes(all.skip(i + 2))) =~= out@
                + wide_bytes(all.skip(i + 2)));
            i += 2;
        } else {
            push_point(&mut out, unit as u32);
            assert(rest.skip(1) =~= all.skip(i + 1));
            assert(before + (point_bytes(unit as u32) + wide_bytes(all.skip(i + 1))) =~= out@
                + wide_bytes(all.skip(i + 1)));
            i += 1;
        }
    }
    assert(all.skip(i as int) =~= Seq::<u16>::empty());
    assert(out@ + Seq::<u8>::empty() =~= out@);
    out
}

/// The units before the first NUL, if there is one.
pub fn until_nul(units: &[u16]) -> (r: Option<Vec<u16>>)
    ensures
        match r {
            Some(name) => units@.contains(0) && name@ == units@.take(
                text::first_of(units@, 0u16) as int,
            ),
            None => !units@.contains(0),
        },
{
    let mut i: usize = 0;
    while i < units.len()
        invariant
            i <= units@.len(),
            forall|j: int| 0 <= j < i ==> units@[j] != 0,
        decreases units@.len() - i,
    {
        if units[i] == 0 {
            proof {
                text::lemma_first_of(units@, 0u16);
                let at = text::first_of(units@, 0u16) as int;
                if at < i {
                    assert(units@[at] == 0);
                }
                assert(at == i);
                assert(units@.contains(0u16));
            }
            let name = vstd::slice::slice_to_vec(vstd::slice::slice_subrange(units, 0, i));
            assert(name@ =~= units@.take(i as int));
            return Some(name);
        }
        i += 1;
    }
    None
}

/// The names in a list of NUL-separated ones, ended by an empty one.
pub open spec fn names_before_empty(pieces: Seq<Seq<u16>>) -> Seq<Seq<u16>>
    decreases pieces.len(),
{
    if pieces.len() == 0 || pieces[0].len() == 0 {
        seq![]
    } else {
        seq![pieces[0]] + names_before_empty(pieces.skip(1))
    }
}

/// The paths a volume is mounted at, in the form Windows lists them:
/// NUL-separated, ended by an empty one.
pub fn volume_paths(names: &[u16]) -> (r: Vec<Vec<u16>>)
    ensures
        r@.len() == names_before_empty(text::pieces(names@, 0u16)).len(),
        forall|i: int|
            0 <= i < r@.len() ==> (#[trigger] r@[i])@ == names_before_empty(
                text::pieces(names@, 0u16),
            )[i],
{
    let all = text::split_all(names, 0u16);
    let ghost whole = text::pieces(names@, 0u16);
    let ghost list = names_before_empty(whole);
    let mut out: Vec<Vec<u16>> = Vec::new();
    let ghost mut done: Seq<Seq<u16>> = Seq::empty();
    let mut i: usize = 0;
    assert(whole.skip(0) =~= whole);
    assert(done + list =~= list);
    while i < all.len()
        invariant
            i <= all@.len(),
            all@.len() == whole.len(),
            forall|k: int| 0 <= k < all@.len() ==> (#[trigger] all@[k])@ == whole[k],
            whole == text::pieces(names@, 0u16),
            list == names_before_empty(whole),
            out@.len() == done.len(),
            forall|k: int| 0 <= k < out@.len() ==> (#[trigger] out@[k])@ == done[k],
            done + names_before_empty(whole.skip(i as int)) == list,
        decreases all@.len() - i,
    {
        let ghost rest = whole.skip(i as int);
        assert(rest[0] == all@[i as int]@);
        if all[i].len() == 0 {
            assert(done + Seq::<Seq<u16>>::empty() =~= done);
            return out;
        }
        let name = vstd::slice::slice_to_vec(all[i].as_slice());
        proof {
            assert(rest.skip(1) =~= whole.skip(i + 1));
            assert(done + (seq![rest[0]] + names_before_empty(whole.skip(i + 1))) =~= done.push(
                rest[0],
            ) + names_before_empty(whole.skip(i + 1)));
            done = done.push(rest[0]);
        }
        out.push(name);
        i += 1;
    }
    assert(whole.skip(i as int) =~= Seq::<Seq<u16>>::empty());
    assert(done + Seq::<Seq<u16>>::empty() =~= done);
    out
}

/// How large a buffer to ask again with, after one of `length` units was too
/// small and `needed` were asked for: `None` where asking again is no use.
pub fn grown(length: usize, needed: u32) -> (r: Option<usize>)
    ensures
        match r {
            Some(size) => size == needed && needed > length,
            None => needed <= length,
        },
{
    let wanted: usize = needed as usize;
    if wanted <= length {
        None
    } else {
        Some(wanted)
    }
}

/// A path as a NUL-terminated wide string, with a trailing separator when
/// `directory` is set: a network share is only accepted with one.
pub open spec fn terminated(units: Seq<u16>, directory: bool) -> Seq<u16> {
    (if directory && (units.len() == 0 || (units.last() != 92 && units.last() != 47)) {
        units.push(92)
    } else {
        units
    }).push(0)
}

/// `units` as a NUL-terminated wide string; an error where they hold a NUL.
pub fn wide(units: &[u16], directory: bool) -> (r: Result<Vec<u16>, String>)
    ensures
        match r {
            Ok(name) => !units@.contains(0) && name@ == terminated(units@, directory),
            Err(reason) => units@.contains(0) && reason@ == "a path cannot contain NUL"@,
        },
{
    if let Some(_) = until_nul(units) {
        return Err("a path cannot contain NUL".to_owned());
    }
    let mut name = vstd::slice::slice_to_vec(units);
    let n: usize = name.len();
    if directory && (n == 0 || (name[n - 1] != 92 && name[n - 1] != 47)) {
        name.push(92);
    }
    name.push(0);
    Ok(name)
}

// ---------------------------------------------------------------------
// Entries.
// ---------------------------------------------------------------------

/// What an entry is.
#[derive(Clone, Copy, Debug, PartialEq, Eq, Structural)]
pub enum Kind {
    Directory,
    /// A symbolic link, a junction or a mounted folder.
    Link,
    File,
}

/// One directory entry, with what a measurement needs.
#[derive(Debug)]
pub struct Entry {
    dir: PathBuf,
    name: Vec<u16>,
    kind: Kind,
    apparent: u64,
    allocated: u64,
    modified: i64,
    identity: Option<(u64, u64)>,
    attributes: u32,
}

/// What an [`Entry`] stands for.
pub struct EntryView {
    pub dir: PathView,
    pub name: Seq<u16>,
    pub kind: Kind,
    pub apparent: int,
    pub allocated: int,
    pub modified: int,
    pub identity: Option<(u64, u64)>,
    pub attributes: u32,
}

impl View for Entry {
    type V = EntryView;

    closed spec fn view(&self) -> EntryView {
        EntryView {
            dir: self.dir@,
            name: self.name@,
            kind: self.kind,
            apparent: self.apparent as int,
            allocated: self.allocated as int,
            modified: self.modified as int,
            identity: self.identity,
            attributes: self.attributes,
        }
    }
}

/// What the standard listing says of an entry.
#[derive(Clone, Copy, Debug, PartialEq, Eq, Structural)]
pub struct StdMeta {
    pub is_symlink: bool,
    pub is_dir: bool,
    pub len: u64,
    pub last_write_time: u64,
    pub attributes: u32,
}

impl Entry {
    pub fn path(&self) -> (r: PathBuf)
        ensures
            r@ == path::joined(
                Platform::Windows,
                self@.dir,
                seq![Part::Name(wide_bytes(self@.name))],
            ),
    {
        let name = narrow(self.name.as_slice());
        self.dir.join_name(Platform::Windows, name.as_slice())
    }

    pub fn file_name(&self) -> (r: &Vec<u16>)
        ensures
            r@ == self@.name,
    {
        &self.name
    }

    pub fn kind(&self) -> (r: Kind)
        ensures
            r == self@.kind,
    {
        self.kind
    }

    /// The length, in bytes.
    pub fn apparent(&self) -> (r: u64)
        ensures
            r == self@.apparent,
    {
        self.apparent
    }

    /// Bytes the volume has allocated to the file, in whole clusters: less
    /// than the length for a compressed or sparse file, and zero for one
    /// whose data is kept in its file record. Where the listing could not
    /// say, the length.
    pub fn allocated(&self) -> (r: u64)
        ensures
            r == self@.allocated,
    {
        self.allocated
    }

    /// Last write, in Unix seconds; `0` when earlier or unknown.
    pub fn modified(&self) -> (r: i64)
        ensures
            r == self@.modified,
    {
        self.modified
    }

    /// Whether Explorer hides this: `FILE_ATTRIBUTE_HIDDEN`, as on
    /// `AppData` and `$Recycle.Bin`.
    pub fn hidden(&self) -> (r: bool)
        ensures
            r == (self@.attributes & FILE_ATTRIBUTE_HIDDEN != 0),
    {
        self.attributes & FILE_ATTRIBUTE_HIDDEN != 0
    }

    /// Whether this is a directory the cloud files provider holds and the
    /// disk does not: see [`EVICTED`].
    pub fn evicted(&self) -> (r: bool)
        ensures
            r == (self@.kind is Directory && self@.attributes & EVICTED != 0),
    {
        match self.kind {
            Kind::Directory => self.attributes & EVICTED != 0,
            _ => false,
        }
    }

    /// `(volume serial, file id)`: the same for two names of one file.
    pub fn identity(&self) -> (r: Option<(u64, u64)>)
        ensures
            r == self@.identity,
    {
        self.identity
    }

    /// The entry called `name` in `dir`, from the standard listing, which
    /// has lengths but neither allocations nor ids.
    pub fn from_std(dir: &PathBuf, name: Vec<u16>, meta: StdMeta) -> (r: Entry)
        ensures
            r@ == (EntryView {
                dir: dir@,
                name: name@,
                kind: if meta.is_symlink {
                    Kind::Link
                } else if meta.is_dir {
                    Kind::Directory
                } else {
                    Kind::File
                },
                apparent: meta.len as int,
                allocated: meta.len as int,
                modified: seconds_of(
                    if meta.last_write_time <= i64::MAX {
                        meta.last_write_time as int
                    } else {
                        0
                    },
                ),
                identity: None,
                attributes: meta.attributes,
            }),
    {
        let kind = if meta.is_symlink {
            Kind::Link
        } else if meta.is_dir {
            Kind::Directory
        } else {
            Kind::File
        };
        let ticks: i64 = if meta.last_write_time <= 0x7fff_ffff_ffff_ffff {
            meta.last_write_time as i64
        } else {
            0
        };
        Entry {
            dir: dir.clone(),
            name,
            kind,
            apparent: meta.len,
            allocated: meta.len,
            modified: unix_seconds(ticks),
            identity: None,
            attributes: meta.attributes,
        }
    }
}

// ---------------------------------------------------------------------
// Records.
// ---------------------------------------------------------------------

/// The units of a name of `len` bytes at `at`.
pub open spec fn units_at(bytes: Seq<u8>, at: int, len: int) -> Seq<u16> {
    Seq::new((len / 2) as nat, |i: int| field(bytes, at + 2 * i, 2) as u16)
}

/// What the attributes and the reparse tag say an entry is. Only tags that
/// stand for another path make a link.
pub open spec fn kind_of(attributes: u32, tag: u32) -> Kind {
    if attributes & FILE_ATTRIBUTE_REPARSE_POINT != 0 && tag & NAME_SURROGATE != 0 {
        Kind::Link
    } else if attributes & FILE_ATTRIBUTE_DIRECTORY != 0 {
        Kind::Directory
    } else {
        Kind::File
    }
}

/// A record at `at` that lies in the buffer: its fixed part, a name of whole
/// units, and a way to the next record that does not lead into itself.
pub open spec fn is_record(bytes: Seq<u8>, at: int) -> bool {
    &&& 0 <= at
    &&& at + NAME_AT <= bytes.len()
    &&& at + NAME_AT + name_length(bytes, at) <= bytes.len()
    &&& name_length(bytes, at) % 2 == 0
    &&& step_of(bytes, at) == 0 || step_of(bytes, at) >= NAME_AT + name_length(bytes, at)
}

/// The length of a record's name, in bytes.
pub open spec fn name_length(bytes: Seq<u8>, at: int) -> nat {
    field(bytes, at + NAME_LENGTH_AT, 4)
}

/// How far it is to the next record; zero for the last.
pub open spec fn step_of(bytes: Seq<u8>, at: int) -> nat {
    field(bytes, at + NEXT_AT, 4)
}

/// The name in a record.
pub open spec fn record_name(bytes: Seq<u8>, at: int) -> Seq<u16> {
    units_at(bytes, at + NAME_AT, name_length(bytes, at) as int)
}

/// Where the record after the one at `at` starts.
pub open spec fn following(bytes: Seq<u8>, at: int) -> Option<int> {
    if step_of(bytes, at) == 0 {
        None
    } else {
        Some(at + step_of(bytes, at))
    }
}

/// A directory's own name for itself or its parent.
pub open spec fn is_dots(name: Seq<u16>) -> bool {
    name == seq![46u16] || name == seq![46u16, 46u16]
}

/// A byte count that is reported as signed.
pub open spec fn count_of(value: int) -> int {
    if value < 0 {
        0
    } else {
        value
    }
}

/// What names the file in a record, where its volume is known and its id
/// names it.
pub open spec fn record_identity(volume: Option<u64>, id: nat) -> Option<(u64, u64)> {
    match volume {
        Some(serial) if 0 < id <= u64::MAX => Some((serial, id as u64)),
        _ => None,
    }
}

/// The entry of the record at `at`, in the directory `dir` on `volume`.
pub open spec fn record_entry(
    bytes: Seq<u8>,
    at: int,
    dir: PathView,
    volume: Option<u64>,
) -> EntryView {
    let attributes = field(bytes, at + ATTRIBUTES_AT, 4) as u32;
    EntryView {
        dir,
        name: record_name(bytes, at),
        kind: kind_of(attributes, field(bytes, at + TAG_AT, 4) as u32),
        apparent: count_of(signed(field(bytes, at + LENGTH_AT, 8))),
        allocated: count_of(signed(field(bytes, at + ALLOCATED_AT, 8))),
        modified: seconds_of(signed(field(bytes, at + WRITTEN_AT, 8))),
        identity: record_identity(volume, field(bytes, at + ID_AT, 16)),
        attributes,
    }
}

/// The units of a name.
fn read_units(bytes: &[u8], at: usize, len: usize) -> (r: Vec<u16>)
    requires
        at + len <= bytes@.len(),
        len % 2 == 0,
    ensures
        r@ == units_at(bytes@, at as int, len as int),
{
    assert(bytes@.len() == bytes.len());
    let mut units: Vec<u16> = Vec::new();
    let mut i: usize = 0;
    while i < len
        invariant
            i <= len,
            i % 2 == 0,
            len % 2 == 0,
            at + len <= bytes@.len(),
            bytes@.len() == bytes.len(),
            units@.len() == i / 2,
            forall|k: int|
                0 <= k < units@.len() ==> #[trigger] units@[k] == field(
                    bytes@,
                    at + 2 * k,
                    2,
                ) as u16,
        decreases len - i,
    {
        let unit = read_u16(bytes, at + i);
        assert(at + i == at + 2 * (i / 2));
        units.push(unit);
        i += 2;
    }
    assert(units@ =~= units_at(bytes@, at as int, len as int));
    units
}

/// A record that does not lie in the buffer as it says.
#[derive(Clone, Copy, Debug, PartialEq, Eq, Structural)]
pub struct Malformed {}

impl Malformed {
    /// What is said of it.
    pub fn message(self) -> (r: &'static str)
        ensures
            r@ == "the file system returned a malformed record"@,
    {
        "the file system returned a malformed record"
    }
}

/// The entry at `offset`, or `None` for `.` and `..`, and where the next
/// record starts. Every length the file system wrote is checked against the
/// buffer before it is used.
pub fn record(bytes: &[u8], dir: &PathBuf, volume: Option<u64>, offset: u64) -> (r: Result<
    (Option<Entry>, Option<u64>),
    Malformed,
>)
    requires
        bytes@.len() <= BUFFER_BYTES,
    ensures
        match r {
            Ok((entry, next)) => {
                &&& is_record(bytes@, offset as int)
                &&& match entry {
                    Some(entry) => !is_dots(record_name(bytes@, offset as int)) && entry@
                        == record_entry(bytes@, offset as int, dir@, volume),
                    None => is_dots(record_name(bytes@, offset as int)),
                }
                &&& match next {
                    Some(next) => following(bytes@, offset as int) == Some(next as int),
                    None => following(bytes@, offset as int) is None,
                }
            },
            Err(_) => !is_record(bytes@, offset as int),
        },
{
    let n: usize = bytes.len();
    if offset > n as u64 || n - (offset as usize) < NAME_AT {
        return Err(Malformed {  });
    }
    let at: usize = offset as usize;
    let length: u32 = read_u32(bytes, at + NAME_LENGTH_AT);
    let room: usize = n - at - NAME_AT;
    if length as u64 > room as u64 || length % 2 != 0 {
        return Err(Malformed {  });
    }
    let step: u32 = read_u32(bytes, at + NEXT_AT);
    if step != 0 && (step as u64) < NAME_AT as u64 + length as u64 {
        return Err(Malformed {  });
    }
    let next: Option<u64> = if step == 0 {
        None
    } else {
        Some(offset + step as u64)
    };
    let name = read_units(bytes, at + NAME_AT, length as usize);
    let dot: Vec<u16> = vec![46];
    let dots: Vec<u16> = vec![46, 46];
    assert(dot@ =~= seq![46u16]);
    assert(dots@ =~= seq![46u16, 46u16]);
    if text::same_units(name.as_slice(), dot.as_slice()) || text::same_units(
        name.as_slice(),
        dots.as_slice(),
    ) {
        return Ok((None, next));
    }
    let attributes: u32 = read_u32(bytes, at + ATTRIBUTES_AT);
    let tag: u32 = read_u32(bytes, at + TAG_AT);
    let kind = if attributes & FILE_ATTRIBUTE_REPARSE_POINT != 0 && tag & NAME_SURROGATE != 0 {
        Kind::Link
    } else if attributes & FILE_ATTRIBUTE_DIRECTORY != 0 {
        Kind::Directory
    } else {
        Kind::File
    };
    let id: u128 = read_u128(bytes, at + ID_AT);
    let named: Option<(u64, u64)> = match (volume, file_id(id)) {
        (Some(serial), Some(low)) => Some((serial, low)),
        _ => None,
    };
    let entry = Entry {
        dir: dir.clone(),
        name,
        kind,
        apparent: bytes_from(read_i64(bytes, at + LENGTH_AT)),
        allocated: bytes_from(read_i64(bytes, at + ALLOCATED_AT)),
        modified: unix_seconds(read_i64(bytes, at + WRITTEN_AT)),
        identity: named,
        attributes,
    };
    Ok((Some(entry), next))
}

// ---------------------------------------------------------------------
// A listing.
// ---------------------------------------------------------------------

/// The number of an error the system reported, if it has one.
pub fn code(raw: Option<i32>) -> (r: Option<u32>)
    ensures
        match raw {
            Some(number) if number >= 0 => r == Some(number as u32),
            _ => r is None,
        },
{
    match raw {
        Some(number) => {
            if number >= 0 {
                Some(number as u32)
            } else {
                None
            }
        },
        None => None,
    }
}

/// Errors a file system or redirector gives for a listing it does not
/// implement.
pub open spec fn is_unsupported(code: Option<u32>) -> bool {
    code matches Some(number) && (number == ERROR_INVALID_FUNCTION || number == ERROR_NOT_SUPPORTED
        || number == ERROR_INVALID_PARAMETER || number == ERROR_INVALID_LEVEL)
}

/// Whether an error means that the listing is not implemented.
pub fn unsupported(code: Option<u32>) -> (r: bool)
    ensures
        r == is_unsupported(code),
{
    match code {
        Some(number) => number == ERROR_INVALID_FUNCTION || number == ERROR_NOT_SUPPORTED || number
            == ERROR_INVALID_PARAMETER || number == ERROR_INVALID_LEVEL,
        None => false,
    }
}

/// A directory being listed from buffers of records; like the standard
/// listing, it leaves out `.` and `..`.
#[derive(Debug)]
pub struct ReadDir {
    pub dir: PathBuf,
    /// Serial number of the directory's volume, which with a file id names
    /// a file. `None` when it cannot be read; nothing is de-duplicated then.
    pub volume: Option<u64>,
    /// The buffer the file system filled last.
    pub buffer: Vec<u8>,
    /// Where the next record starts, or `None` once the buffer is used up.
    pub next: Option<u64>,
    pub done: bool,
}

/// What asking the file system for the next buffer came to.
#[derive(Debug)]
pub enum Fill {
    /// It filled this buffer.
    Filled(Vec<u8>),
    /// It failed, with this number.
    Failed(Option<u32>),
}

/// What a listing has next.
#[derive(Debug)]
pub enum Next {
    /// Nothing more.
    End,
    /// It needs the next buffer first: see [`ReadDir::fill`].
    Fill,
    /// An entry.
    Entry(Entry),
    /// A record that makes no sense; the listing ends with it.
    Malformed(Malformed),
}

/// How the records of a buffer go on from `at`: the first that is not `.` or
/// `..`, with where the one after it starts.
pub enum Scan {
    /// No record is left in the buffer.
    Over,
    /// The record at `at` makes no sense.
    Broken,
    /// The entry of the record at `at`, and where the next one starts.
    Found { at: int, next: Option<int> },
}

/// The records of `bytes` from `at` on.
pub open spec fn scan(bytes: Seq<u8>, at: Option<int>) -> Scan
    decreases
            (match at {
                Some(at) if 0 <= at <= bytes.len() => bytes.len() - at,
                _ => 0,
            }),
    via scan_decreases
{
    match at {
        None => Scan::Over,
        Some(at) => if !is_record(bytes, at) {
            Scan::Broken
        } else if is_dots(record_name(bytes, at)) {
            scan(bytes, following(bytes, at))
        } else {
            Scan::Found { at, next: following(bytes, at) }
        },
    }
}

#[via_fn]
proof fn scan_decreases(bytes: Seq<u8>, at: Option<int>) {
    if let Some(at) = at {
        if is_record(bytes, at) {
            assert(bytes.len() - at >= NAME_AT);
        }
    }
}

impl ReadDir {
    /// Where the next record starts.
    pub open spec fn place(&self) -> Option<int> {
        match self.next {
            Some(next) => Some(next as int),
            None => None,
        }
    }

    /// The buffer is one the file system can have filled.
    pub open spec fn wf(&self) -> bool {
        self.buffer@.len() <= BUFFER_BYTES
    }

    /// The listing of `dir`, on `volume`, before the first buffer.
    pub fn start(dir: PathBuf, volume: Option<u64>) -> (r: ReadDir)
        ensures
            r.wf(),
            r.dir == dir,
            r.volume == volume,
            r.next is None,
            !r.done,
    {
        ReadDir { dir, volume, buffer: Vec::new(), next: None, done: false }
    }

    /// Take in what asking for the next buffer came to. `Err` is a failure
    /// to report; after it the listing is at its end.
    pub fn fill(&mut self, fill: Fill) -> (r: Result<(), Option<u32>>)
        requires
            old(self).wf(),
            !old(self).done,
            fill matches Fill::Filled(buffer) ==> buffer@.len() <= BUFFER_BYTES,
        ensures
            final(self).wf(),
            final(self).dir == old(self).dir,
            final(self).volume == old(self).volume,
            match fill {
                Fill::Filled(buffer) => r is Ok && final(self).buffer == buffer && final(self).next
                    == Some(0u64) && !final(self).done,
                Fill::Failed(code) => final(self).buffer == old(self).buffer && final(self).next
                    == old(self).next && final(self).done && if code == Some(ERROR_NO_MORE_FILES) {
                    r is Ok
                } else {
                    r == Err::<(), Option<u32>>(code)
                },
            },
    {
        match fill {
            Fill::Filled(buffer) => {
                self.buffer = buffer;
                self.next = Some(0);
                Ok(())
            },
            Fill::Failed(code) => {
                self.done = true;
                match code {
                    Some(number) if number == ERROR_NO_MORE_FILES => Ok(()),
                    _ => Err(code),
                }
            },
        }
    }

    /// The next entry, or what is needed to know it.
    pub fn next(&mut self) -> (r: Next)
        requires
            old(self).wf(),
        ensures
            final(self).wf(),
            final(self).dir == old(self).dir,
            final(self).volume == old(self).volume,
            final(self).buffer == old(self).buffer,
            old(self).done ==> r is End && *final(self) == *old(self),
            !old(self).done ==> match scan(old(self).buffer@, old(self).place()) {
                Scan::Over => r is Fill && final(self).next is None && !final(self).done,
                Scan::Broken => r is Malformed && final(self).done,
                Scan::Found { at, next } => r matches Next::Entry(entry) && entry@ == record_entry(
                    old(self).buffer@,
                    at,
                    old(self).dir@,
                    old(self).volume,
                ) && final(self).place() == next && !final(self).done,
            },
    {
        if self.done {
            return Next::End;
        }
        let ghost start = scan(self.buffer@, self.place());
        loop
            invariant
                self.wf(),
                self.dir == old(self).dir,
                self.volume == old(self).volume,
                self.buffer == old(self).buffer,
                !self.done,
                !old(self).done,
                start == scan(old(self).buffer@, old(self).place()),
                start == scan(self.buffer@, self.place()),
            decreases
                    (match self.next {
                        Some(at) if at <= self.buffer@.len() => self.buffer@.len() - at + 2,
                        Some(_) => 1int,
                        None => 0int,
                    }),
        {
            let offset: u64 = match self.next {
                None => {
                    return Next::Fill;
                },
                Some(offset) => offset,
            };
            match record(self.buffer.as_slice(), &self.dir, self.volume, offset) {
                Ok((entry, next)) => {
                    proof {
                        assert(is_record(self.buffer@, offset as int));
                        assert(offset + NAME_AT <= self.buffer@.len());
                    }
                    self.next = next;
                    if let Some(entry) = entry {
                        return Next::Entry(entry);
                    }
                },
                Err(error) => {
                    self.done = true;
                    return Next::Malformed(error);
                },
            }
        }
    }
}

/// The records of a buffer are taken from front to back, each at most once:
/// what is found lies at or after where the search began, and the next one
/// after it, past its whole name.
pub proof fn lemma_scan_forward(bytes: Seq<u8>, at: Option<int>)
    ensures
        scan(bytes, at) matches Scan::Found { at: found, next } ==> {
            &&& at is Some
            &&& at->0 <= found
            &&& is_record(bytes, found)
            &&& !is_dots(record_name(bytes, found))
            &&& next == following(bytes, found)
            &&& next matches Some(next) ==> next >= found + NAME_AT + name_length(bytes, found)
        },
    decreases
            (match at {
                Some(at) if 0 <= at <= bytes.len() => bytes.len() - at,
                _ => 0,
            }),
{
    if let Some(start) = at {
        if is_record(bytes, start) && is_dots(record_name(bytes, start)) {
            lemma_scan_forward(bytes, following(bytes, start));
        }
    }
}

// ---------------------------------------------------------------------
// Comparing paths.
// ---------------------------------------------------------------------

/// `path` in the one spelling the removal guards compare, so that
/// containment of two keys is containment as Windows sees it.
pub fn guard_key(path: &PathBuf) -> (r: PathBuf)
    ensures
        r@ == guards::folded_path(path@.parts),
{
    guards::windows_key(path)
}

/// Whether `left` and `right` name the same place, compared the way Windows
/// compares names: without regard to case, and with `\\?\C:\` the same place
/// as `C:\`.
pub fn same(left: &PathBuf, right: &PathBuf) -> (r: bool)
    ensures
        r == (guards::folded_texts(left@.parts) == guards::folded_texts(right@.parts)),
{
    guards::same_folded(left.parts.as_slice(), right.parts.as_slice())
}

/// Whether `path`, on the volume mounted at `root`, is a folder that volume
/// is mounted on. Removing one would reach onto that volume, which nobody
/// marked. A drive is a root, not a folder.
pub fn is_mount_point(path: &PathBuf, root: Option<&PathBuf>) -> (r: bool)
    ensures
        r == (path::has_parent(path@.parts) && (root matches Some(root) && guards::folded_texts(
            root@.parts,
        ) == guards::folded_texts(path@.parts))),
{
    if !path.has_parent() {
        return false;
    }
    match root {
        Some(root) => same(root, path),
        None => false,
    }
}

/// The two spellings of a drive are folded to one, whatever the case of its
/// letter.
pub proof fn lemma_drives_fold(letter: u8)
    ensures
        guards::folded_text(Part::Prefix(path::PrefixPart::VerbatimDisk(letter)))
            == guards::folded_text(Part::Prefix(path::PrefixPart::Disk(letter))),
        guards::folded_text(
            Part::Prefix(path::PrefixPart::Disk(guards::lower_byte(letter))),
        ) == guards::folded_text(Part::Prefix(path::PrefixPart::Disk(letter))),
{
}

} // verus!
