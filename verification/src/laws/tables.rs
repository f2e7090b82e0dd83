//! What holds of the mount tables a removal goes by.

use vstd::prelude::*;

use crate::guards;
use crate::mounts;
use crate::mounts::{LineFault, MountCache, MountSource, MountTableError};
use crate::path;
use crate::path::{Part, PathBuf, PathView};
use crate::platform::Platform;
use crate::text;

verus! {

// ---------------------------------------------------------------------
// One line.
// ---------------------------------------------------------------------

/// A path in the table is read byte by byte: a byte that is no backslash is
/// itself, and a backslash with three octal digits is the byte they number,
/// which must be one of 1 to 255; anything else after a backslash is no
/// path.
pub proof fn lemma_escapes_by_byte(byte: u8, a: u8, b: u8, c: u8, rest: Seq<u8>)
    ensures
        mounts::unescaped(Seq::<u8>::empty()) == Ok::<Seq<u8>, LineFault>(Seq::<u8>::empty()),
        byte != 92 ==> (match mounts::unescaped(rest) {
            Ok(path) => mounts::unescaped(seq![byte] + rest) == Ok::<Seq<u8>, LineFault>(
                seq![byte] + path,
            ),
            Err(fault) => mounts::unescaped(seq![byte] + rest) == Err::<Seq<u8>, LineFault>(fault),
        }),
        ({
            let digits = 48 <= a <= 55 && 48 <= b <= 55 && 48 <= c <= 55;
            let value = 64 * (a - 48) + 8 * (b - 48) + (c - 48);
            let read = mounts::unescaped(seq![92u8, a, b, c] + rest);
            &&& !digits ==> read == Err::<Seq<u8>, LineFault>(LineFault::Path)
            &&& digits && value > 255 ==> read == Err::<Seq<u8>, LineFault>(LineFault::Escape)
            &&& digits && value == 0 ==> read == Err::<Seq<u8>, LineFault>(LineFault::Nul)
            &&& digits && 0 < value <= 255 ==> match mounts::unescaped(rest) {
                Ok(path) => read == Ok::<Seq<u8>, LineFault>(seq![value as u8] + path),
                Err(fault) => read == Err::<Seq<u8>, LineFault>(fault),
            }
        }),
        rest.len() < 3 ==> mounts::unescaped(seq![92u8] + rest) == Err::<Seq<u8>, LineFault>(
            LineFault::Path,
        ),
{
    let one = seq![byte] + rest;
    assert(one.skip(1) =~= rest);
    let four = seq![92u8, a, b, c] + rest;
    assert(four.skip(4) =~= rest);
    assert(four[1] == a && four[2] == b && four[3] == c);
}

/// A text of digits that writes a number of 32 bits.
pub open spec fn digits_u32(s: Seq<char>) -> bool {
    &&& s.len() > 0
    &&& forall|i: int| 0 <= i < s.len() ==> '0' <= #[trigger] s[i] <= '9'
    &&& text::number(s) < 0x1_0000_0000
}

/// A number of 32 bits, with a plus sign in front or not.
pub open spec fn writes_u32(s: Seq<char>) -> bool {
    if s.len() > 0 && s[0] == '+' {
        digits_u32(s.subrange(1, s.len() as int))
    } else {
        digits_u32(s)
    }
}

/// A line names a mount point exactly where it has six fields, of which the
/// last two are numbers, and the second is an absolute path once its escapes
/// are read; that path is the point. Otherwise it has the first fault among
/// these.
pub proof fn lemma_line_exactly(line: Seq<char>)
    ensures
        ({
            let all = text::fields(line);
            let shaped = all.len() == 6 && writes_u32(all[4]) && writes_u32(all[5]);
            let path = mounts::unescaped(vstd::utf8::encode_utf8(all[1]));
            &&& !shaped ==> mounts::line_point(line) == Err::<Seq<u8>, LineFault>(
                LineFault::Malformed,
            )
            &&& shaped && path is Err ==> mounts::line_point(line) == path
            &&& shaped && path is Ok && path->Ok_0.len() > 0 && path->Ok_0[0] == 47
                ==> mounts::line_point(line) == path
            &&& shaped && path is Ok && (path->Ok_0.len() == 0 || path->Ok_0[0] != 47)
                ==> mounts::line_point(line) == Err::<Seq<u8>, LineFault>(LineFault::Relative)
        }),
{
    let all = text::fields(line);
    if all.len() == 6 {
        lemma_u32(all[4]);
        lemma_u32(all[5]);
    }
}

proof fn lemma_u32(s: Seq<char>)
    ensures
        text::is_u32(s) <==> writes_u32(s),
{
    let digits = text::unsigned(s);
    if s.len() > 0 && s[0] == '+' {
        assert(digits =~= s.subrange(1, s.len() as int));
    }
    assert(text::is_u32(s) <==> digits_u32(digits)) by {
        if text::is_u32(s) {
            assert forall|i: int| 0 <= i < digits.len() implies '0' <= #[trigger] digits[i]
                <= '9' by {
                assert(text::is_digit(digits[i]));
            }
        }
        if digits_u32(digits) {
            assert forall|i: int| 0 <= i < digits.len() implies text::is_digit(
                #[trigger] digits[i],
            ) by {
                assert('0' <= digits[i] <= '9');
            }
        }
    }
}

// ---------------------------------------------------------------------
// The whole table.
// ---------------------------------------------------------------------

/// The line at `i` is the first that is not empty and has a fault.
pub open spec fn first_fault(lines: Seq<Seq<char>>, i: int) -> bool {
    &&& 0 <= i < lines.len()
    &&& lines[i].len() > 0
    &&& mounts::line_point(lines[i]) is Err
    &&& forall|j: int|
        0 <= j < i && (#[trigger] lines[j]).len() > 0 ==> mounts::line_point(lines[j]) is Ok
}

/// No line that is not empty has a fault.
pub open spec fn faultless(lines: Seq<Seq<char>>) -> bool {
    forall|j: int|
        0 <= j < lines.len() && (#[trigger] lines[j]).len() > 0 ==> mounts::line_point(lines[j])
            is Ok
}

/// The error for a line, counted from one, with this fault.
pub open spec fn told_of(fault: LineFault, line: usize) -> MountTableError {
    if fault is Malformed {
        MountTableError::MalformedLine(line)
    } else if fault is Path {
        MountTableError::MalformedPath(line)
    } else if fault is Escape {
        MountTableError::InvalidEscape(line)
    } else if fault is Nul {
        MountTableError::NulInPath(line)
    } else {
        MountTableError::RelativePath(line)
    }
}

/// The points of the lines that are not empty, in order, as keys.
pub open spec fn points_named(lines: Seq<Seq<char>>) -> Seq<PathView> {
    lines.filter(|line: Seq<char>| line.len() > 0).map_values(
        |line: Seq<char>|
            guards::key(Platform::Linux, path::unix_parts(mounts::line_point(line)->Ok_0)),
    )
}

proof fn lemma_lines(lines: Seq<Seq<char>>)
    ensures
        match mounts::line_points(lines) {
            Ok(points) => faultless(lines) && points == points_named(lines),
            Err(error) => exists|i: int|
                #[trigger] first_fault(lines, i) && error == told_of(
                    mounts::line_point(lines[i])->Err_0,
                    (i + 1) as usize,
                ),
        },
    decreases lines.len(),
{
    reveal(Seq::filter);
    let filled = |line: Seq<char>| line.len() > 0;
    let key = |line: Seq<char>|
        guards::key(Platform::Linux, path::unix_parts(mounts::line_point(line)->Ok_0));
    if lines.len() == 0 {
        assert(points_named(lines) =~= Seq::<PathView>::empty());
    } else {
        let front = lines.drop_last();
        let last = lines.last();
        let n = lines.len() - 1;
        assert(lines[n] == last);
        lemma_lines(front);
        assert forall|j: int| 0 <= j < n implies front[j] == #[trigger] lines[j] by {}
        match mounts::line_points(front) {
            Err(error) => {
                let i = choose|i: int|
                    #[trigger] first_fault(front, i) && error == told_of(
                        mounts::line_point(front[i])->Err_0,
                        (i + 1) as usize,
                    );
                assert forall|j: int| 0 <= j < i && (#[trigger] lines[j]).len()
                    > 0 implies mounts::line_point(lines[j]) is Ok by {
                    assert(lines[j] == front[j]);
                }
                assert(first_fault(lines, i));
            },
            Ok(points) => {
                assert forall|j: int| 0 <= j < n && (#[trigger] lines[j]).len()
                    > 0 implies mounts::line_point(lines[j]) is Ok by {
                    assert(lines[j] == front[j]);
                }
                if last.len() > 0 {
                    if mounts::line_point(last) is Err {
                        assert(first_fault(lines, n));
                    } else {
                        assert(faultless(lines));
                        assert(front.filter(filled).push(last).map_values(key) =~= front.filter(
                            filled,
                        ).map_values(key).push(key(last)));
                    }
                } else {
                    assert(faultless(lines));
                }
            },
        }
    }
}

/// A Linux mount table is used exactly where none of its lines has a fault
/// and one of them names the root; it then names the points of all its
/// lines, in order and as keys. One with a fault is refused for the first
/// line that has one, and one that names no root for that.
pub proof fn lemma_table_exactly(table: Seq<char>)
    ensures
        ({
            let lines = text::lines(table);
            let rooted = exists|i: int|
                0 <= i < points_named(lines).len() && (#[trigger] points_named(lines)[i]).parts
                    == seq![Part::Root];
            &&& faultless(lines) && rooted ==> mounts::linux_points(table) == Ok::<
                Seq<PathView>,
                MountTableError,
            >(points_named(lines))
            &&& faultless(lines) && !rooted ==> mounts::linux_points(table) == Err::<
                Seq<PathView>,
                MountTableError,
            >(MountTableError::NoRoot)
            &&& forall|i: int| #[trigger]
                first_fault(lines, i) ==> mounts::linux_points(table) == Err::<
                    Seq<PathView>,
                    MountTableError,
                >(told_of(mounts::line_point(lines[i])->Err_0, (i + 1) as usize))
            &&& faultless(lines) || exists|i: int| first_fault(lines, i)
        }),
{
    let lines = text::lines(table);
    lemma_lines(lines);
    if let Err(error) = mounts::line_points(lines) {
        let i = choose|i: int|
            #[trigger] first_fault(lines, i) && error == told_of(
                mounts::line_point(lines[i])->Err_0,
                (i + 1) as usize,
            );
        assert(!faultless(lines)) by {
            assert(lines[i].len() > 0);
        }
        assert forall|k: int| #[trigger] first_fault(lines, k) implies k == i by {
            if k < i {
                assert(lines[k].len() > 0);
            }
            if i < k {
                assert(lines[i].len() > 0);
            }
        }
    } else {
        assert forall|k: int| !(#[trigger] first_fault(lines, k)) by {
            if first_fault(lines, k) {
                assert(lines[k].len() > 0);
            }
        }
    }
}

/// What is said of a table that is refused: what is wrong, and on which line
/// where it is one.
pub proof fn lemma_table_says(line: usize)
    ensures
        told_of(LineFault::Malformed, line).said() == "malformed Linux mount table line "@
            + text::decimal(line as nat),
        told_of(LineFault::Path, line).said() == "malformed mount path on line "@ + text::decimal(
            line as nat,
        ),
        told_of(LineFault::Escape, line).said() == "invalid mount path escape on line "@
            + text::decimal(line as nat),
        told_of(LineFault::Nul, line).said() == "NUL in mount path on line "@ + text::decimal(
            line as nat,
        ),
        told_of(LineFault::Relative, line).said() == "relative mount path on line "@
            + text::decimal(line as nat),
        MountTableError::NoRoot.said() == "could not parse the Linux mount table root"@,
        MountTableError::MacosUnreadable.said() == "could not read the macOS mount table"@,
        MountTableError::MacosUnparsed.said() == "could not parse the macOS mount table"@,
        MountTableError::WindowsUnreadable.said() == "could not read the Windows volume mounts"@,
{
}

// ---------------------------------------------------------------------
// The other platforms.
// ---------------------------------------------------------------------

/// Whether `word` stands in `s` at `i`.
pub open spec fn stands(s: Seq<char>, word: Seq<char>, i: int) -> bool {
    0 <= i && i + word.len() <= s.len() && s.subrange(i, i + word.len()) == word
}

proof fn lemma_cut_first(s: Seq<char>, word: Seq<char>, i: int)
    requires
        stands(s, word, i),
        forall|j: int| 0 <= j < i ==> !(#[trigger] stands(s, word, j)),
    ensures
        text::cut_first(s, word) == Some((s.take(i), s.skip(i + word.len()))),
{
    assert(text::occurs_at(s, word, i));
    assert forall|j: int| 0 <= j < i implies !text::occurs_at(s, word, j) by {
        assert(!stands(s, word, j));
    }
    assert(text::is_first(s, word, i));
    let k = choose|k: int| text::is_first(s, word, k);
    assert(stands(s, word, k));
    if k < i {
        assert(!stands(s, word, k));
    }
    if i < k {
        assert(!text::occurs_at(s, word, i));
    }
}

proof fn lemma_cut_last(s: Seq<char>, word: Seq<char>, i: int)
    requires
        stands(s, word, i),
        forall|j: int| j > i ==> !(#[trigger] stands(s, word, j)),
    ensures
        text::cut_last(s, word) == Some((s.take(i), s.skip(i + word.len()))),
{
    assert(text::occurs_at(s, word, i));
    assert forall|j: int| j > i implies !text::occurs_at(s, word, j) by {
        assert(!stands(s, word, j));
    }
    assert(text::is_last(s, word, i));
    let k = choose|k: int| text::is_last(s, word, k);
    assert(stands(s, word, k));
    if k > i {
        assert(!stands(s, word, k));
    }
    if i > k {
        assert(!text::occurs_at(s, word, i));
    }
}

/// A line of macOS's `mount` names what stands between its first ` on ` and
/// the last ` (` after that, and nothing where either is missing.
pub proof fn lemma_macos_line(line: Seq<char>, on: int, open: int)
    ensures
        ({
            let rest = line.subrange(on + 4, line.len() as int);
            &&& stands(line, " on "@, on) && (forall|j: int|
                0 <= j < on ==> !(#[trigger] stands(line, " on "@, j))) && stands(
                rest,
                " ("@,
                open,
            ) && (forall|j: int| j > open ==> !(#[trigger] stands(rest, " ("@, j)))
                ==> mounts::macos_point(line) == Some(line.subrange(on + 4, on + 4 + open))
            &&& stands(line, " on "@, on) && (forall|j: int|
                0 <= j < on ==> !(#[trigger] stands(line, " on "@, j))) && (forall|j: int|
                !(#[trigger] stands(rest, " ("@, j))) ==> mounts::macos_point(line) is None
        }),
        (forall|j: int| !(#[trigger] stands(line, " on "@, j))) ==> mounts::macos_point(line)
            is None,
{
    reveal_strlit(" on ");
    let word = " on "@;
    let rest = line.subrange(on + 4, line.len() as int);
    if stands(line, word, on) && (forall|j: int|
        0 <= j < on ==> !(#[trigger] stands(line, word, j))) {
        lemma_cut_first(line, word, on);
        assert(line.skip(on + 4) =~= rest);
        if stands(rest, " ("@, open) && (forall|j: int|
            j > open ==> !(#[trigger] stands(rest, " ("@, j))) {
            lemma_cut_last(rest, " ("@, open);
            assert(rest.take(open) =~= line.subrange(on + 4, on + 4 + open));
        }
        if forall|j: int| !(#[trigger] stands(rest, " ("@, j)) {
            assert(!text::has_text(rest, " ("@)) by {
                if text::has_text(rest, " ("@) {
                    let j = choose|j: int| text::occurs_at(rest, " ("@, j);
                    assert(stands(rest, " ("@, j));
                }
            }
        }
    }
    if forall|j: int| !(#[trigger] stands(line, word, j)) {
        if text::has_text(line, word) {
            let j = choose|j: int| text::occurs_at(line, word, j);
            assert(stands(line, word, j));
        }
    }
}

/// What macOS's `mount` prints is read line by line, each that names a point
/// after those before it.
pub proof fn lemma_macos_by_line(lines: Seq<Seq<char>>, line: Seq<char>)
    ensures
        mounts::macos_points(Seq::<Seq<char>>::empty()) == Seq::<PathView>::empty(),
        mounts::macos_point(line) is None ==> mounts::macos_points(lines.push(line))
            == mounts::macos_points(lines),
        mounts::macos_point(line) matches Some(point) ==> mounts::macos_points(lines.push(line))
            == mounts::macos_points(lines).push(guards::text_path(point)),
{
    assert(lines.push(line).drop_last() =~= lines);
}

/// What each platform's mounts are read from, and when that is refused: on
/// macOS where `mount` failed or named nothing, on Windows where no volume
/// is mounted anywhere. What is read is one key for each point, in order.
pub proof fn lemma_sources(source: MountSource)
    ensures
        match source {
            MountSource::Proc(table) => mounts::source_points(source) == mounts::linux_points(
                table@,
            ),
            MountSource::MountCommand { success, output } => {
                let points = mounts::macos_points(text::lines(text::shown(output@)));
                &&& !success ==> mounts::source_points(source) == Err::<
                    Seq<PathView>,
                    MountTableError,
                >(MountTableError::MacosUnreadable)
                &&& success && points.len() == 0 ==> mounts::source_points(source) == Err::<
                    Seq<PathView>,
                    MountTableError,
                >(MountTableError::MacosUnparsed)
                &&& success && points.len() > 0 ==> {
                    &&& mounts::source_points(source) matches Ok(keys)
                    &&& keys.len() == points.len()
                    &&& forall|i: int|
                        0 <= i < keys.len() ==> #[trigger] keys[i] == guards::key(
                            Platform::MacOs,
                            points[i].parts,
                        )
                }
            },
            MountSource::Volumes(points) => {
                &&& points@.len() == 0 ==> mounts::source_points(source) == Err::<
                    Seq<PathView>,
                    MountTableError,
                >(MountTableError::WindowsUnreadable)
                &&& points@.len() > 0 ==> {
                    &&& mounts::source_points(source) matches Ok(keys)
                    &&& keys.len() == points@.len()
                    &&& forall|i: int|
                        0 <= i < keys.len() ==> #[trigger] keys[i] == guards::key(
                            Platform::Windows,
                            points@[i]@.parts,
                        )
                }
            },
            MountSource::Nothing => mounts::source_points(source) == Ok::<
                Seq<PathView>,
                MountTableError,
            >(Seq::<PathView>::empty()),
        },
{
}

/// Until the first read of the mounts has landed the answer is that they are
/// still loading; from then on it is what the last read came to, fresh or
/// not. A read is begun exactly where none is under way and the last one is
/// two seconds old, or there was none.
pub proof fn lemma_cache_answers(cache: MountCache, now: u64)
    ensures
        cache.mounts is None ==> cache.answer() == Err::<Seq<PathView>, Seq<char>>(
            "the mount table is still loading"@,
        ),
        cache.mounts matches Some(Ok(points)) ==> cache.answer() == Ok::<Seq<PathView>, Seq<char>>(
            points.deep_view(),
        ),
        cache.mounts matches Some(Err(reason)) ==> cache.answer() == Err::<
            Seq<PathView>,
            Seq<char>,
        >(reason@),
        cache.starts(now) <==> !cache.refreshing && (cache.read is None || now
            >= cache.read->0 + 2_000_000_000),
{
}

/// What is read of a platform's mounts is what its source names, and what
/// was read last answers until the next read lands; one read is begun at a
/// time.
pub proof fn lemma_mounts_read(
    source: &MountSource,
    read: Result<Vec<PathBuf>, MountTableError>,
    cache: &mut MountCache,
    now: u64,
    begun: bool,
    landed: Result<Vec<PathBuf>, String>,
    answer: (bool, Result<Vec<PathBuf>, String>),
)
    ensures
        call_ensures(mounts::read_mount_points, (source,), read) ==> (match read {
            Ok(points) => mounts::source_points(*source) == Ok::<Seq<PathView>, MountTableError>(
                points.deep_view(),
            ),
            Err(error) => mounts::source_points(*source) == Err::<Seq<PathView>, MountTableError>(
                error,
            ),
        }),
        call_ensures(MountCache::begin_refresh, (cache, now), begun) ==> {
            &&& begun <==> !old(cache).refreshing && (old(cache).read is None || now >= old(cache).read->0 + 2_000_000_000)
            &&& final(cache).refreshing <==> begun || old(cache).refreshing
            &&& final(cache).read == old(cache).read
            &&& final(cache).mounts == old(cache).mounts
        },
        call_ensures(MountCache::landed, (cache, landed, now), ()) ==> final(cache).mounts == Some(
            landed,
        ) && final(cache).read == Some(now) && !final(cache).refreshing,
        call_ensures(MountCache::refresh_failed, (cache,), ()) ==> final(cache).mounts == old(cache).mounts && final(cache).read == old(cache).read && !final(cache).refreshing,
        call_ensures(mounts::mount_points, (cache, now), answer) ==> {
            &&& answer.0 <==> old(cache).starts(now)
            &&& mounts::mounts_view(answer.1) == old(cache).answer()
            &&& final(cache).mounts == old(cache).mounts
            &&& final(cache).read == old(cache).read
            &&& final(cache).refreshing <==> answer.0 || old(cache).refreshing
        },
{
}

} // verus!
