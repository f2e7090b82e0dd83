//! What holds of every directory listing on Windows.

use vstd::prelude::*;

use crate::guards;
use crate::path;
use crate::path::{Part, PathBuf, PathView};
use crate::platform::Platform;
use crate::text;
use crate::windows;
use crate::windows::{Entry, Fill, Kind, Malformed, Next, ReadDir, Scan, StdMeta};

verus! {

/// The bytes of a field write its number, the least significant first.
pub proof fn lemma_fields(bytes: Seq<u8>, at: int)
    ensures
        0 <= at && at + 2 <= bytes.len() ==> windows::field(bytes, at, 2) == bytes[at] + 0x100
            * bytes[at + 1],
        0 <= at && at + 4 <= bytes.len() ==> windows::field(bytes, at, 4) == bytes[at] + 0x100
            * bytes[at + 1] + 0x1_0000 * bytes[at + 2] + 0x100_0000 * bytes[at + 3],
        0 <= at && at + 8 <= bytes.len() ==> windows::field(bytes, at, 8) == windows::field(
            bytes,
            at,
            4,
        ) + 0x1_0000_0000 * windows::field(bytes, at + 4, 4),
        0 <= at && at + 16 <= bytes.len() ==> windows::field(bytes, at, 16) == windows::field(
            bytes,
            at,
            8,
        ) + 0x1_0000_0000_0000_0000 * windows::field(bytes, at + 8, 8),
{
    if 0 <= at && at + 2 <= bytes.len() {
        lemma_field_two(bytes, at);
    }
    if 0 <= at && at + 4 <= bytes.len() {
        lemma_field_split(bytes, at, 2, 2);
        lemma_field_two(bytes, at);
        lemma_field_two(bytes, at + 2);
        assert(power(2) == 0x1_0000) by {
            reveal_with_fuel(power, 3);
        }
        assert(power(2) * windows::field(bytes, at + 2, 2) == 0x1_0000 * windows::field(
            bytes,
            at + 2,
            2,
        ));
        assert(bytes[at + 2 + 1] == bytes[at + 3]);
    }
    if 0 <= at && at + 8 <= bytes.len() {
        lemma_field_split(bytes, at, 4, 4);
        assert(power(4) == 0x1_0000_0000) by {
            reveal_with_fuel(power, 5);
        }
    }
    if 0 <= at && at + 16 <= bytes.len() {
        lemma_field_split(bytes, at, 8, 8);
        assert(power(8) == 0x1_0000_0000_0000_0000) by {
            reveal_with_fuel(power, 9);
        }
    }
}

/// How much the byte at `n` counts.
spec fn power(n: nat) -> nat
    decreases n,
{
    if n == 0 {
        1
    } else {
        256 * power((n - 1) as nat)
    }
}

proof fn lemma_field_two(bytes: Seq<u8>, at: int)
    requires
        0 <= at,
        at + 2 <= bytes.len(),
    ensures
        windows::field(bytes, at, 2) == bytes[at] + 0x100 * bytes[at + 1],
{
    let part = bytes.subrange(at, at + 2);
    reveal_with_fuel(windows::number_of, 3);
    assert(part.skip(1)[0] == bytes[at + 1]);
    assert(part.skip(1).skip(1).len() == 0);
}

proof fn lemma_field_split(bytes: Seq<u8>, at: int, low: int, high: int)
    requires
        0 <= at,
        0 <= low,
        0 <= high,
        at + low + high <= bytes.len(),
    ensures
        windows::field(bytes, at, low + high) == windows::field(bytes, at, low) + power(low as nat)
            * windows::field(bytes, at + low, high),
    decreases low,
{
    let whole = bytes.subrange(at, at + low + high);
    let front = bytes.subrange(at, at + low);
    if low == 0 {
        assert(whole =~= bytes.subrange(at + low, at + low + high));
        assert(windows::number_of(front) == 0);
        let h = windows::field(bytes, at + low, high);
        let one = power(low as nat);
        assert(one * h == h) by (nonlinear_arith)
            requires
                one == 1,
        ;
    } else {
        lemma_field_split(bytes, at + 1, low - 1, high);
        assert(whole.skip(1) =~= bytes.subrange(at + 1, at + low + high));
        assert(front.skip(1) =~= bytes.subrange(at + 1, at + low));
        let p = power((low - 1) as nat);
        let h = windows::field(bytes, at + low, high);
        let l = windows::field(bytes, at + 1, low - 1);
        assert(256 * (l + p * h) == 256 * l + (256 * p) * h) by (nonlinear_arith);
        assert(whole =~= bytes.subrange(at, at + (low + high)));
        assert(windows::number_of(whole) == bytes[at] as nat + 256 * windows::number_of(
            whole.skip(1),
        ));
        assert(windows::number_of(front) == bytes[at] as nat + 256 * l);
        assert(whole.skip(1) =~= bytes.subrange(at + 1, at + 1 + (low - 1 + high)));
        assert(windows::number_of(whole.skip(1)) == l + p * h);
        let q = power(low as nat);
        assert(q * h == (256 * p) * h) by (nonlinear_arith)
            requires
                q == 256 * p,
        ;
    }
}

/// An entry says what its record says, each thing from its own place and
/// from nothing else: the length of the data, the space it occupies and the
/// time of its last write as the file system wrote them (a count below zero
/// as none, a time before 1970 as 1970), the attributes unchanged, the name
/// unit by unit, and the id where the volume is known and the id is one of
/// 64 bits.
pub proof fn lemma_record_says(bytes: Seq<u8>, at: int, dir: PathView, volume: Option<u64>)
    requires
        windows::is_record(bytes, at),
    ensures
        ({
            let entry = windows::record_entry(bytes, at, dir, volume);
            let length = windows::signed(windows::field(bytes, at + 40, 8));
            let space = windows::signed(windows::field(bytes, at + 48, 8));
            let ticks = windows::signed(windows::field(bytes, at + 24, 8));
            let id = windows::field(bytes, at + 72, 16);
            let units = windows::field(bytes, at + 60, 4) / 2;
            &&& entry.dir == dir
            &&& length >= 0 ==> entry.apparent == length
            &&& length < 0 ==> entry.apparent == 0
            &&& space >= 0 ==> entry.allocated == space
            &&& space < 0 ==> entry.allocated == 0
            &&& ticks < 116_444_736_000_000_000 ==> entry.modified == 0
            &&& ticks >= 116_444_736_000_000_000 ==> entry.modified * 10_000_000
                <= ticks - 116_444_736_000_000_000 < (entry.modified + 1) * 10_000_000
            &&& entry.attributes == windows::field(bytes, at + 56, 4)
            &&& entry.name.len() == units
            &&& forall|i: int|
                0 <= i < units ==> #[trigger] entry.name[i] == bytes[at + 88 + 2 * i] + 0x100
                    * bytes[at + 89 + 2 * i]
            &&& entry.identity matches Some((serial, index)) ==> volume == Some(serial) && index
                == id
            &&& entry.identity is Some <==> volume is Some && 0 < id < 0x1_0000_0000_0000_0000
        }),
{
    lemma_fields(bytes, at + 56);
    lemma_fields(bytes, at + 60);
    let entry = windows::record_entry(bytes, at, dir, volume);
    let n = windows::field(bytes, at + 60, 4);
    assert forall|i: int| 0 <= i < n / 2 implies #[trigger] entry.name[i] == bytes[at + 88 + 2 * i]
        + 0x100 * bytes[at + 89 + 2 * i] by {
        lemma_fields(bytes, at + 88 + 2 * i);
    }
    let ticks = windows::signed(windows::field(bytes, at + 24, 8));
    if ticks >= 116_444_736_000_000_000 {
        let over = ticks - 116_444_736_000_000_000;
        vstd::arithmetic::div_mod::lemma_fundamental_div_mod(over, 10_000_000);
    }
}

/// A number whose top bit is set is below zero by what is missing to the
/// full range, and any other is itself.
pub proof fn lemma_signed(value: nat)
    requires
        value < 0x1_0000_0000_0000_0000,
    ensures
        value < 0x8000_0000_0000_0000 ==> windows::signed(value) == value,
        value >= 0x8000_0000_0000_0000 ==> windows::signed(value) < 0 && windows::signed(value)
            + 0x1_0000_0000_0000_0000 == value,
{
}

/// Two records that agree on one of their fields have entries that agree on
/// what it says, whatever else they hold: what an entry occupies does not
/// depend on its length, nor its length on what it occupies.
pub proof fn lemma_fields_apart(
    one: Seq<u8>,
    at: int,
    two: Seq<u8>,
    there: int,
    dir: PathView,
    volume: Option<u64>,
)
    requires
        windows::is_record(one, at),
        windows::is_record(two, there),
    ensures
        ({
            let a = windows::record_entry(one, at, dir, volume);
            let b = windows::record_entry(two, there, dir, volume);
            &&& one.subrange(at + 48, at + 56) == two.subrange(there + 48, there + 56)
                ==> a.allocated == b.allocated
            &&& one.subrange(at + 40, at + 48) == two.subrange(there + 40, there + 48)
                ==> a.apparent == b.apparent
            &&& one.subrange(at + 24, at + 32) == two.subrange(there + 24, there + 32)
                ==> a.modified == b.modified
            &&& one.subrange(at + 56, at + 60) == two.subrange(there + 56, there + 60)
                ==> a.attributes == b.attributes
            &&& one.subrange(at + 72, at + 88) == two.subrange(there + 72, there + 88)
                ==> a.identity == b.identity
            &&& one.subrange(at + 56, at + 60) == two.subrange(there + 56, there + 60)
                && one.subrange(at + 68, at + 72) == two.subrange(there + 68, there + 72) ==> a.kind
                == b.kind
        }),
{
}

/// An entry is a link exactly where it is a reparse point whose tag stands
/// for another path, a directory where it is none and has the directory
/// attribute, and a file otherwise.
pub proof fn lemma_record_kind(bytes: Seq<u8>, at: int, dir: PathView, volume: Option<u64>)
    requires
        windows::is_record(bytes, at),
    ensures
        ({
            let entry = windows::record_entry(bytes, at, dir, volume);
            let tag = windows::field(bytes, at + 68, 4) as u32;
            let link = entry.attributes & 0x400 != 0 && tag & 0x2000_0000 != 0;
            &&& tag == windows::field(bytes, at + 68, 4)
            &&& entry.kind is Link <==> link
            &&& entry.kind is Directory <==> !link && entry.attributes & 0x10 != 0
            &&& entry.kind is File <==> !link && entry.attributes & 0x10 == 0
        }),
{
    lemma_fields(bytes, at + 68);
}

/// A record makes sense exactly where its fixed part lies in the buffer, its
/// name too, of whole units, and the next record does not start inside it.
pub proof fn lemma_record_shape(bytes: Seq<u8>, at: int)
    requires
        0 <= at,
    ensures
        windows::is_record(bytes, at) <==> {
            &&& at + 88 <= bytes.len()
            &&& at + 88 + windows::field(bytes, at + 60, 4) <= bytes.len()
            &&& windows::field(bytes, at + 60, 4) % 2 == 0
            &&& windows::field(bytes, at, 4) == 0 || windows::field(bytes, at, 4) >= 88
                + windows::field(bytes, at + 60, 4)
        },
        windows::following(bytes, at) is None <==> windows::field(bytes, at, 4) == 0,
        windows::following(bytes, at) matches Some(next) ==> next == at + windows::field(
            bytes,
            at,
            4,
        ),
{
}

/// From record to record: `stop` is reached from `at` by going on `n` times,
/// over records called `.` or `..` alone.
pub open spec fn over_dots(bytes: Seq<u8>, at: Option<int>, n: nat, stop: Option<int>) -> bool
    decreases n,
{
    if n == 0 {
        at == stop
    } else {
        &&& at is Some
        &&& windows::is_record(bytes, at->0)
        &&& ({
            let name = windows::record_name(bytes, at->0);
            name == seq![46u16] || name == seq![46u16, 46u16]
        })
        &&& over_dots(
            bytes,
            if windows::field(bytes, at->0, 4) == 0 {
                None
            } else {
                Some(at->0 + windows::field(bytes, at->0, 4))
            },
            (n - 1) as nat,
            stop,
        )
    }
}

proof fn lemma_one_more(bytes: Seq<u8>, start: int, n: nat, stop: Option<int>)
    requires
        windows::is_record(bytes, start),
        windows::is_dots(windows::record_name(bytes, start)),
        over_dots(bytes, windows::following(bytes, start), n, stop),
    ensures
        over_dots(bytes, Some(start), n + 1, stop),
{
    let next: Option<int> = if windows::field(bytes, start, 4) == 0 {
        None
    } else {
        Some(start + windows::field(bytes, start, 4))
    };
    assert(start + windows::NEXT_AT == start);
    assert(next == windows::following(bytes, start));
    assert(((n + 1) - 1) as nat == n);
}

/// `stop` is reached from `at` over records called `.` or `..` alone.
pub open spec fn reaches(bytes: Seq<u8>, at: Option<int>, stop: Option<int>) -> bool {
    exists|n: nat| over_dots(bytes, at, n, stop)
}

proof fn lemma_reaches(bytes: Seq<u8>, start: int, stop: Option<int>)
    requires
        windows::is_record(bytes, start),
        windows::is_dots(windows::record_name(bytes, start)),
        reaches(bytes, windows::following(bytes, start), stop),
    ensures
        reaches(bytes, Some(start), stop),
{
    let n = choose|n: nat| over_dots(bytes, windows::following(bytes, start), n, stop);
    lemma_one_more(bytes, start, n, stop);
}

proof fn lemma_reaches_itself(bytes: Seq<u8>, at: Option<int>)
    ensures
        reaches(bytes, at, at),
{
    assert(over_dots(bytes, at, 0, at));
}

/// What a listing finds is the first record from where it stands that is not
/// called `.` or `..`, and no other is passed over; it ends only where no
/// record is left, and breaks off only at one that makes no sense.
pub proof fn lemma_first_real_record(bytes: Seq<u8>, at: Option<int>)
    ensures
        match windows::scan(bytes, at) {
            Scan::Over => reaches(bytes, at, None),
            Scan::Broken => exists|stop: int|
                #[trigger] reaches(bytes, at, Some(stop)) && !windows::is_record(bytes, stop),
            Scan::Found { at: found, next } => {
                let name = windows::record_name(bytes, found);
                &&& reaches(bytes, at, Some(found))
                &&& windows::is_record(bytes, found)
                &&& name != seq![46u16] && name != seq![46u16, 46u16]
                &&& next == if windows::field(bytes, found, 4) == 0 {
                    None
                } else {
                    Some(found + windows::field(bytes, found, 4))
                }
            },
        },
    decreases
            (match at {
                Some(at) if 0 <= at <= bytes.len() => bytes.len() - at,
                _ => 0,
            }),
{
    lemma_reaches_itself(bytes, at);
    if let Some(start) = at {
        if windows::is_record(bytes, start) && windows::is_dots(windows::record_name(bytes, start)) {
            let next = windows::following(bytes, start);
            lemma_first_real_record(bytes, next);
            assert(windows::scan(bytes, at) == windows::scan(bytes, next));
            match windows::scan(bytes, next) {
                Scan::Over => {
                    lemma_reaches(bytes, start, None);
                },
                Scan::Broken => {
                    let stop = choose|stop: int|
                        #[trigger] reaches(bytes, next, Some(stop)) && !windows::is_record(
                            bytes,
                            stop,
                        );
                    lemma_reaches(bytes, start, Some(stop));
                },
                Scan::Found { at: found, .. } => {
                    lemma_reaches(bytes, start, Some(found));
                },
            }
        } else if windows::is_record(bytes, start) {
            assert(windows::scan(bytes, at) == (Scan::Found {
                at: start,
                next: windows::following(bytes, start),
            }));
            assert(start + windows::NEXT_AT == start);
        } else {
            assert(windows::scan(bytes, at) is Broken);
            assert(reaches(bytes, at, Some(start)));
        }
    }
}

// ---------------------------------------------------------------------
// Entries.
// ---------------------------------------------------------------------

/// What an entry says of itself is what it was made with, each thing for
/// itself: the space it occupies is not its length.
pub proof fn lemma_entry_says(
    entry: &Entry,
    kind: Kind,
    apparent: u64,
    allocated: u64,
    modified: i64,
    hidden: bool,
    evicted: bool,
    identity: Option<(u64, u64)>,
    place: PathBuf,
)
    ensures
        call_ensures(Entry::kind, (entry,), kind) ==> kind == entry@.kind,
        call_ensures(Entry::apparent, (entry,), apparent) ==> apparent == entry@.apparent,
        call_ensures(Entry::allocated, (entry,), allocated) ==> allocated == entry@.allocated,
        call_ensures(Entry::modified, (entry,), modified) ==> modified == entry@.modified,
        call_ensures(Entry::hidden, (entry,), hidden) ==> hidden == (entry@.attributes & 0x2 != 0),
        call_ensures(Entry::evicted, (entry,), evicted) ==> evicted == (entry@.kind is Directory
            && entry@.attributes & 0x44_0000 != 0),
        call_ensures(Entry::identity, (entry,), identity) ==> identity == entry@.identity,
        call_ensures(Entry::path, (entry,), place) ==> place@ == path::joined(
            Platform::Windows,
            entry@.dir,
            seq![Part::Name(windows::wide_bytes(entry@.name))],
        ),
{
}

/// An entry from the standard listing has its name and attributes as they
/// are, its length for what it occupies too, no identity, and is a link
/// before it is a directory.
pub proof fn lemma_entry_from_std(dir: &PathBuf, name: Vec<u16>, meta: StdMeta, entry: Entry)
    requires
        call_ensures(Entry::from_std, (dir, name, meta), entry),
    ensures
        entry@.dir == dir@,
        entry@.name == name@,
        entry@.apparent == meta.len,
        entry@.allocated == meta.len,
        entry@.identity is None,
        entry@.attributes == meta.attributes,
        entry@.kind is Link <==> meta.is_symlink,
        entry@.kind is Directory <==> !meta.is_symlink && meta.is_dir,
        meta.last_write_time < 116_444_736_000_000_000 ==> entry@.modified == 0,
        116_444_736_000_000_000 <= meta.last_write_time <= i64::MAX ==> entry@.modified * 10_000_000
            <= meta.last_write_time - 116_444_736_000_000_000 < (entry@.modified + 1) * 10_000_000,
        meta.last_write_time > i64::MAX ==> entry@.modified == 0,
{
    let ticks = meta.last_write_time;
    if 116_444_736_000_000_000 <= ticks <= i64::MAX {
        let over = ticks - 116_444_736_000_000_000;
        vstd::arithmetic::div_mod::lemma_fundamental_div_mod(over, 10_000_000);
    }
}

/// A count below zero is none; a time is in whole seconds from 1970 on, and
/// none before; an id names a file exactly where it is one of 64 bits and
/// not zero; and an index does where it is neither zero nor all ones.
pub proof fn lemma_numbers_read(
    count: i64,
    bytes: u64,
    ticks: i64,
    seconds: i64,
    id: u128,
    low: Option<u64>,
    volume: u64,
    index: u64,
    named: Option<(u64, u64)>,
)
    ensures
        call_ensures(windows::bytes_from, (count,), bytes) ==> (count >= 0 ==> bytes == count) && (
        count < 0 ==> bytes == 0),
        call_ensures(windows::unix_seconds, (ticks,), seconds) ==> (ticks < 116_444_736_000_000_000
            ==> seconds == 0) && (ticks >= 116_444_736_000_000_000 ==> seconds * 10_000_000 <= ticks
            - 116_444_736_000_000_000 < (seconds + 1) * 10_000_000),
        call_ensures(windows::file_id, (id,), low) ==> (low matches Some(low) ==> low == id) && (
        low is Some <==> 0 < id < 0x1_0000_0000_0000_0000),
        call_ensures(windows::identity, (volume, index), named) ==> (named matches Some(pair)
            ==> pair == (volume, index)) && (named is Some <==> 0 < index
            < 0xffff_ffff_ffff_ffff),
{
    if ticks >= 116_444_736_000_000_000 {
        let over = ticks - 116_444_736_000_000_000;
        vstd::arithmetic::div_mod::lemma_fundamental_div_mod(over, 10_000_000);
    }
}

// ---------------------------------------------------------------------
// Wide names.
// ---------------------------------------------------------------------

/// `bytes` are those of the code point `point`: as many as it needs, the
/// first saying how many, and six bits in each of the others.
pub open spec fn encodes(bytes: Seq<u8>, point: int) -> bool {
    let more = |i: int| 0x80 <= bytes[i] < 0xc0;
    ||| point < 0x80 && bytes.len() == 1 && bytes[0] == point
    ||| 0x80 <= point < 0x800 && bytes.len() == 2 && 0xc0 <= bytes[0] < 0xe0 && more(1) && point
        == (bytes[0] - 0xc0) * 64 + (bytes[1] - 0x80)
    ||| 0x800 <= point < 0x1_0000 && bytes.len() == 3 && 0xe0 <= bytes[0] < 0xf0 && more(1) && more(
        2,
    ) && point == (bytes[0] - 0xe0) * 4096 + (bytes[1] - 0x80) * 64 + (bytes[2] - 0x80)
    ||| 0x1_0000 <= point < 0x11_0000 && bytes.len() == 4 && 0xf0 <= bytes[0] < 0xf8 && more(1)
        && more(2) && more(3) && point == (bytes[0] - 0xf0) * 262144 + (bytes[1] - 0x80) * 4096 + (
    bytes[2] - 0x80) * 64 + (bytes[3] - 0x80)
}

/// The bytes of a wide name are those of its units in order, where a high
/// surrogate and a low one after it are one code point together, and any
/// other unit is one by itself.
pub proof fn lemma_wide_by_unit(unit: u16, low: u16, rest: Seq<u16>)
    ensures
        windows::wide_bytes(Seq::<u16>::empty()) == Seq::<u8>::empty(),
        ({
            let pair = 0xd800 <= unit < 0xdc00 && 0xdc00 <= low < 0xe000;
            let all = windows::wide_bytes(seq![unit, low] + rest);
            &&& pair ==> exists|bytes: Seq<u8>|
                encodes(bytes, 0x1_0000 + (unit - 0xd800) * 0x400 + (low - 0xdc00)) && all
                    == #[trigger] (bytes + windows::wide_bytes(rest))
            &&& !pair ==> exists|bytes: Seq<u8>|
                encodes(bytes, unit as int) && all == #[trigger] (bytes + windows::wide_bytes(
                    seq![low] + rest,
                ))
        }),
        exists|bytes: Seq<u8>|
            encodes(bytes, unit as int) && windows::wide_bytes(seq![unit]) == bytes,
{
    let both = seq![unit, low] + rest;
    assert(both.skip(2) =~= rest);
    assert(both.skip(1) =~= seq![low] + rest);
    assert(both[0] == unit && both[1] == low);
    lemma_point(unit as u32);
    if windows::is_pair(unit, low) {
        let point = windows::pair_point(unit, low);
        lemma_point(point);
        let bytes = windows::point_bytes(point);
        assert(windows::wide_bytes(both) == bytes + windows::wide_bytes(rest));
    } else {
        let bytes = windows::point_bytes(unit as u32);
        assert(windows::wide_bytes(both) == bytes + windows::wide_bytes(seq![low] + rest));
    }
    let one = seq![unit];
    assert(one.skip(1) =~= Seq::<u16>::empty());
    let bytes = windows::point_bytes(unit as u32);
    assert(bytes + Seq::<u8>::empty() =~= bytes);
    assert(windows::wide_bytes(one) == bytes + windows::wide_bytes(one.skip(1)));
    assert(windows::wide_bytes(one) == bytes);
}

proof fn lemma_point(point: u32)
    requires
        point < 0x11_0000,
    ensures
        encodes(windows::point_bytes(point), point as int),
{
}

/// The names a volume is mounted by are those before the first empty one.
pub proof fn lemma_names_before_empty(pieces: Seq<Seq<u16>>)
    ensures
        ({
            let names = windows::names_before_empty(pieces);
            &&& names.is_prefix_of(pieces)
            &&& names.len() < pieces.len() ==> pieces[names.len() as int].len() == 0
            &&& forall|i: int| 0 <= i < names.len() ==> (#[trigger] names[i]).len() > 0
        }),
    decreases pieces.len(),
{
    if pieces.len() > 0 && pieces[0].len() > 0 {
        let rest = pieces.skip(1);
        lemma_names_before_empty(rest);
        let names = windows::names_before_empty(pieces);
        let more = windows::names_before_empty(rest);
        assert(names =~= seq![pieces[0]] + more);
        assert(names =~= pieces.subrange(0, names.len() as int)) by {
            assert forall|i: int| 0 <= i < names.len() implies names[i] == pieces[i] by {
                if i > 0 {
                    assert(more[i - 1] == rest[i - 1]);
                }
            }
        }
        assert forall|i: int| 0 <= i < names.len() implies (#[trigger] names[i]).len() > 0 by {
            if i > 0 {
                assert(names[i] == more[i - 1]);
            }
        }
    }
}

/// A path is handed to Windows with a NUL behind it, and for a directory
/// with a separator in front of that, unless it ends in one.
pub proof fn lemma_terminated(units: Seq<u16>)
    ensures
        windows::terminated(units, false) == units + seq![0u16],
        units.len() > 0 && (units.last() == 92 || units.last() == 47) ==> windows::terminated(
            units,
            true,
        ) == units + seq![0u16],
        units.len() == 0 || (units.last() != 92 && units.last() != 47) ==> windows::terminated(
            units,
            true,
        ) == units + seq![92u16, 0],
{
    assert(units.push(0) =~= units + seq![0u16]);
    assert(units.push(92).push(0) =~= units + seq![92u16, 0]);
}

/// A listing is not implemented exactly where the system says so in one of
/// four ways.
pub proof fn lemma_unsupported_exactly(code: Option<u32>)
    ensures
        windows::is_unsupported(code) <==> code == Some(1u32) || code == Some(50u32) || code
            == Some(87u32) || code == Some(124u32),
{
}

/// Two paths are one place to Windows exactly where they have as many
/// components and each is spelled like the other without regard to case;
/// and a path is a folder a volume is mounted on exactly where it is the
/// root of its volume and is in a directory.
pub proof fn lemma_same_place(
    left: &PathBuf,
    right: &PathBuf,
    same: bool,
    mount_point: bool,
)
    ensures
        call_ensures(windows::same, (left, right), same) ==> (same <==> left@.parts.len()
            == right@.parts.len() && forall|i: int|
            0 <= i < left@.parts.len() ==> guards::folded_text(#[trigger] left@.parts[i])
                == guards::folded_text(right@.parts[i])),
        call_ensures(windows::is_mount_point, (left, Some(right)), mount_point) ==> (mount_point
            <==> left@.parts.len() > 0 && left@.parts.last() !is Root && left@.parts.last()
            !is Prefix && guards::folded_texts(right@.parts) == guards::folded_texts(left@.parts)),
        call_ensures(windows::is_mount_point, (left, None), mount_point) ==> !mount_point,
{
    let a = guards::folded_texts(left@.parts);
    let b = guards::folded_texts(right@.parts);
    assert(a.len() == left@.parts.len() && b.len() == right@.parts.len());
    if a == b {
        assert forall|i: int| 0 <= i < left@.parts.len() implies guards::folded_text(
            #[trigger] left@.parts[i],
        ) == guards::folded_text(right@.parts[i]) by {
            assert(a[i] == b[i]);
        }
    }
    if left@.parts.len() == right@.parts.len() && forall|i: int|
        0 <= i < left@.parts.len() ==> guards::folded_text(#[trigger] left@.parts[i])
            == guards::folded_text(right@.parts[i]) {
        assert forall|i: int| 0 <= i < a.len() implies a[i] == b[i] by {
            assert(a[i] == guards::folded_text(left@.parts[i]));
        }
        assert(a =~= b);
    }
}

// ---------------------------------------------------------------------
// Reading.
// ---------------------------------------------------------------------

/// What is read of a record is what it says: nothing but `.` and `..` is
/// left out, a record that makes no sense is refused, and the entry has the
/// length, the space and the attributes at their places in the record.
pub proof fn lemma_record_read(
    bytes: &[u8],
    dir: &PathBuf,
    volume: Option<u64>,
    offset: u64,
    read: Result<(Option<Entry>, Option<u64>), Malformed>,
)
    requires
        call_ensures(windows::record, (bytes, dir, volume, offset), read),
    ensures
        ({
            let at = offset as int;
            let name = windows::record_name(bytes@, at);
            let dots = name == seq![46u16] || name == seq![46u16, 46u16];
            &&& read is Ok <==> windows::is_record(bytes@, at)
            &&& read matches Ok((entry, next)) ==> {
                &&& entry is None <==> dots
                &&& entry matches Some(entry) ==> {
                    let length = windows::signed(windows::field(bytes@, at + 40, 8));
                    let space = windows::signed(windows::field(bytes@, at + 48, 8));
                    &&& entry@ == windows::record_entry(bytes@, at, dir@, volume)
                    &&& length >= 0 ==> entry@.apparent == length
                    &&& space >= 0 ==> entry@.allocated == space
                    &&& entry@.attributes == windows::field(bytes@, at + 56, 4)
                    &&& entry@.name == name
                    &&& entry@.dir == dir@
                }
                &&& next is None <==> windows::field(bytes@, at, 4) == 0
                &&& next matches Some(next) ==> next == at + windows::field(bytes@, at, 4)
            }
        }),
{
    if windows::is_record(bytes@, offset as int) {
        lemma_record_says(bytes@, offset as int, dir@, volume);
    }
    lemma_record_shape(bytes@, offset as int);
}

/// A buffer that was filled is read from its start; a listing ends at the
/// first failure, which is no error exactly where it says that there are no
/// more files, and is reported otherwise.
pub proof fn lemma_filled(listing: &mut ReadDir, fill: Fill, went: Result<(), Option<u32>>)
    requires
        call_ensures(ReadDir::fill, (listing, fill), went),
    ensures
        final(listing).dir == old(listing).dir,
        final(listing).volume == old(listing).volume,
        fill matches Fill::Filled(buffer) ==> went is Ok && final(listing).buffer == buffer
            && final(listing).next == Some(0u64) && !final(listing).done,
        fill matches Fill::Failed(code) ==> final(listing).done && (went is Ok <==> code == Some(
            18u32,
        )) && (went matches Err(told) ==> told == code),
{
}

/// What comes next in a listing that is not over is the first entry left in
/// its buffer, in its directory and on its volume; where none is left it
/// needs the next buffer, and at a record that makes no sense it is over.
pub proof fn lemma_next_listed(listing: &mut ReadDir, next: Next)
    requires
        call_ensures(ReadDir::next, (listing,), next),
    ensures
        old(listing).done <==> next is End,
        final(listing).dir == old(listing).dir,
        final(listing).volume == old(listing).volume,
        final(listing).buffer == old(listing).buffer,
        !old(listing).done ==> match windows::scan(old(listing).buffer@, old(listing).place()) {
            Scan::Over => next is Fill && !final(listing).done,
            Scan::Broken => next is Malformed && final(listing).done,
            Scan::Found { at, next: after } => {
                &&& next matches Next::Entry(entry)
                &&& entry@ == windows::record_entry(
                    old(listing).buffer@,
                    at,
                    old(listing).dir@,
                    old(listing).volume,
                )
                &&& final(listing).place() == after
                &&& !final(listing).done
            },
        },
{
}

/// A text is cut at its first NUL, where it has one, and is handed on with
/// one behind it, where it has none; a buffer that was too small is asked
/// for again at the size that was needed, where that is more.
pub proof fn lemma_wide_texts(
    units: &[u16],
    directory: bool,
    cut: Option<Vec<u16>>,
    made: Result<Vec<u16>, String>,
    length: usize,
    needed: u32,
    size: Option<usize>,
    raw: Option<i32>,
    code: Option<u32>,
)
    ensures
        call_ensures(windows::until_nul, (units,), cut) ==> {
            &&& cut is None <==> !units@.contains(0)
            &&& cut matches Some(name) ==> !name@.contains(0) && name@.len() < units@.len()
                && units@[name@.len() as int] == 0 && name@.is_prefix_of(units@)
        },
        call_ensures(windows::wide, (units, directory), made) ==> {
            &&& made is Err <==> units@.contains(0)
            &&& made matches Err(reason) ==> reason@ == "a path cannot contain NUL"@
            &&& made matches Ok(name) ==> name@ == windows::terminated(units@, directory)
        },
        call_ensures(windows::grown, (length, needed), size) ==> {
            &&& size is Some <==> needed > length
            &&& size matches Some(size) ==> size == needed
        },
        call_ensures(windows::code, (raw,), code) ==> {
            &&& code is Some <==> raw is Some && raw->0 >= 0
            &&& code matches Some(number) ==> number == raw->0
        },
{
    text::lemma_first_of(units@, 0u16);
    let at = text::first_of(units@, 0u16) as int;
    let front = units@.take(at);
    if front.contains(0) {
        let i = choose|i: int| 0 <= i < front.len() && front[i] == 0;
        assert(units@[i] == 0);
    }
    if units@.contains(0) {
        let i = choose|i: int| 0 <= i < units@.len() && units@[i] == 0;
        assert(at <= i);
    }
}

/// What is said of a record that makes no sense.
pub proof fn lemma_malformed(malformed: Malformed, says: &'static str)
    requires
        call_ensures(Malformed::message, (malformed,), says),
    ensures
        says@ == "the file system returned a malformed record"@,
{
}

} // verus!
