//! What holds of volumes and of the mount table.

use vstd::prelude::*;

use crate::guards;
use crate::laws::guarding;
use crate::laws::marking;
use crate::lists;
use crate::path;
use crate::path::{Part, PathBuf, PathView};
use crate::platform::Platform;
use crate::space;
use crate::space::{BlockCounts, DeviceSource, DeviceView, MountView, SpaceInfo, VolumeSource};
use crate::text;

verus! {

// ---------------------------------------------------------------------
// Space.
// ---------------------------------------------------------------------

/// Removing adds what is removed to what is free and to what is available,
/// each of them up to the size of the volume, and changes nothing else.
pub proof fn lemma_freed(space: SpaceInfo, bytes: nat)
    ensures
        ({
            let after = space::space_after(space, bytes);
            &&& after.total == space.total
            &&& space.free + bytes <= space.total ==> after.free == space.free + bytes
            &&& space.free + bytes >= space.total ==> after.free == space.total
            &&& space.available + bytes <= space.total ==> after.available == space.available
                + bytes
            &&& space.available + bytes >= space.total ==> after.available == space.total
        }),
{
}

// ---------------------------------------------------------------------
// Which mount a path is on.
// ---------------------------------------------------------------------

proof fn lemma_last_largest_kept<T>(
    s: Seq<T>,
    fits: spec_fn(T) -> bool,
    size: spec_fn(T) -> nat,
)
    ensures
        match lists::last_largest(lists::kept(s, fits), size) {
            Some(best) => exists|i: int|
                {
                    &&& 0 <= i < s.len()
                    &&& #[trigger] s[i] == best
                    &&& fits(best)
                    &&& forall|j: int|
                        0 <= j < s.len() && fits(#[trigger] s[j]) ==> size(s[j]) <= size(best) && (j
                            > i ==> size(s[j]) < size(best))
                },
            None => forall|i: int| 0 <= i < s.len() ==> !fits(#[trigger] s[i]),
        },
    decreases s.len(),
{
    if s.len() > 0 {
        let front = s.drop_last();
        let last = s.last();
        lemma_last_largest_kept(front, fits, size);
        let before = lists::kept(front, fits);
        let n = s.len() - 1;
        assert(s[n] == last);
        assert(forall|j: int| 0 <= j < n ==> front[j] == #[trigger] s[j]);
        if fits(last) {
            assert(before.push(last).drop_last() =~= before);
            match lists::last_largest(before, size) {
                Some(best) if size(best) > size(last) => {
                    let i = choose|i: int|
                        {
                            &&& 0 <= i < front.len()
                            &&& #[trigger] front[i] == best
                            &&& fits(best)
                            &&& forall|j: int|
                                0 <= j < front.len() && fits(#[trigger] front[j]) ==> size(front[j])
                                    <= size(best) && (j > i ==> size(front[j]) < size(best))
                        };
                    assert(s[i] == best);
                    assert forall|j: int| 0 <= j < s.len() && fits(#[trigger] s[j]) implies size(
                        s[j],
                    ) <= size(best) && (j > i ==> size(s[j]) < size(best)) by {
                        if j < n {
                            assert(s[j] == front[j]);
                        }
                    }
                },
                Some(best) => {
                    assert forall|j: int| 0 <= j < s.len() && fits(#[trigger] s[j]) implies size(
                        s[j],
                    ) <= size(last) by {
                        if j < n {
                            assert(s[j] == front[j]);
                        }
                    }
                    assert(s[n] == last);
                },
                None => {
                    assert forall|j: int| 0 <= j < s.len() && fits(#[trigger] s[j]) implies j == n by {
                        if j < n {
                            assert(s[j] == front[j]);
                        }
                    }
                    assert(s[n] == last);
                },
            }
        } else {
            match lists::last_largest(before, size) {
                Some(best) => {
                    let i = choose|i: int|
                        {
                            &&& 0 <= i < front.len()
                            &&& #[trigger] front[i] == best
                            &&& fits(best)
                            &&& forall|j: int|
                                0 <= j < front.len() && fits(#[trigger] front[j]) ==> size(front[j])
                                    <= size(best) && (j > i ==> size(front[j]) < size(best))
                        };
                    assert(s[i] == best);
                    assert forall|j: int| 0 <= j < s.len() && fits(#[trigger] s[j]) implies size(
                        s[j],
                    ) <= size(best) && (j > i ==> size(s[j]) < size(best)) by {
                        assert(s[j] == front[j]);
                    }
                },
                None => {
                    assert forall|j: int| 0 <= j < s.len() implies !fits(#[trigger] s[j]) by {
                        if j < n {
                            assert(s[j] == front[j]);
                        }
                    }
                },
            }
        }
    }
}

proof fn lemma_first_smallest_kept<T>(
    s: Seq<T>,
    fits: spec_fn(T) -> bool,
    size: spec_fn(T) -> nat,
)
    ensures
        match lists::first_smallest(lists::kept(s, fits), size) {
            Some(best) => exists|i: int|
                {
                    &&& 0 <= i < s.len()
                    &&& #[trigger] s[i] == best
                    &&& fits(best)
                    &&& forall|j: int|
                        0 <= j < s.len() && fits(#[trigger] s[j]) ==> size(s[j]) >= size(best) && (j
                            < i ==> size(s[j]) > size(best))
                },
            None => forall|i: int| 0 <= i < s.len() ==> !fits(#[trigger] s[i]),
        },
    decreases s.len(),
{
    if s.len() > 0 {
        let front = s.drop_last();
        let last = s.last();
        lemma_first_smallest_kept(front, fits, size);
        let before = lists::kept(front, fits);
        let n = s.len() - 1;
        assert(s[n] == last);
        assert(before.push(last).drop_last() =~= before);
        assert forall|j: int| 0 <= j < n implies front[j] == #[trigger] s[j] by {}
        match lists::first_smallest(before, size) {
            Some(best) => {
                let i = choose|i: int|
                    {
                        &&& 0 <= i < front.len()
                        &&& #[trigger] front[i] == best
                        &&& fits(best)
                        &&& forall|j: int|
                            0 <= j < front.len() && fits(#[trigger] front[j]) ==> size(front[j])
                                >= size(best) && (j < i ==> size(front[j]) > size(best))
                    };
                assert(s[i] == best);
                assert forall|j: int| 0 <= j < n && fits(#[trigger] s[j]) implies size(s[j])
                    >= size(best) && (j < i ==> size(s[j]) > size(best)) by {
                    assert(s[j] == front[j]);
                }
                if fits(last) && size(best) > size(last) {
                    assert(s[n] == last);
                }
            },
            None => {
                assert forall|j: int| 0 <= j < n implies !fits(#[trigger] s[j]) by {
                    assert(s[j] == front[j]);
                }
                if fits(last) {
                    assert(s[n] == last);
                }
            },
        }
    }
}

/// `mount` is the one at `i`, which the path is at or below; no mount that
/// it is at or below is spelled longer, and no later one as long.
pub open spec fn is_own(mounts: Seq<MountView>, path: Seq<Part>, i: int) -> bool {
    &&& 0 <= i < mounts.len()
    &&& mounts[i].point.parts.is_prefix_of(path)
    &&& forall|j: int|
        0 <= j < mounts.len() && (#[trigger] mounts[j]).point.parts.is_prefix_of(path)
            ==> mounts[j].point.text.len() <= mounts[i].point.text.len() && (j > i
            ==> mounts[j].point.text.len() < mounts[i].point.text.len())
}

/// The mount a path is on is, of those with the longest point that it is at
/// or below, the last; there is one wherever it is at or below any.
pub proof fn lemma_own_mount_exactly(mounts: Seq<MountView>, path: Seq<Part>)
    ensures
        match space::own_mount(mounts, path) {
            Some(own) => exists|i: int| #[trigger] is_own(mounts, path, i) && mounts[i] == own,
            None => forall|i: int|
                0 <= i < mounts.len() ==> !(#[trigger] mounts[i]).point.parts.is_prefix_of(path),
        },
        forall|i: int| #[trigger]
            is_own(mounts, path, i) ==> space::own_mount(mounts, path) == Some(mounts[i]),
{
    let fits = space::over(path);
    let size = space::point_length();
    lemma_last_largest_kept(mounts, fits, size);
    assert forall|j: int| 0 <= j < mounts.len() implies (fits(#[trigger] mounts[j])
        <==> mounts[j].point.parts.is_prefix_of(path)) by {
        guarding::lemma_inside(path, mounts[j].point.parts);
    }
    match space::own_mount(mounts, path) {
        Some(own) => {
            let i = choose|i: int|
                {
                    &&& 0 <= i < mounts.len()
                    &&& #[trigger] mounts[i] == own
                    &&& fits(own)
                    &&& forall|j: int|
                        0 <= j < mounts.len() && fits(#[trigger] mounts[j]) ==> size(mounts[j])
                            <= size(own) && (j > i ==> size(mounts[j]) < size(own))
                };
            assert(fits(mounts[i]));
            assert forall|j: int|
                0 <= j < mounts.len() && (#[trigger] mounts[j]).point.parts.is_prefix_of(
                    path,
                ) implies mounts[j].point.text.len() <= mounts[i].point.text.len() && (j > i
                ==> mounts[j].point.text.len() < mounts[i].point.text.len()) by {
                assert(fits(mounts[j]));
                assert(size(mounts[j]) <= size(own));
            }
            assert(is_own(mounts, path, i));
            assert forall|k: int| #[trigger] is_own(mounts, path, k) implies k == i by {
                assert(mounts[k].point.parts.is_prefix_of(path));
                assert(mounts[i].point.parts.is_prefix_of(path));
            }
        },
        None => {
            assert forall|i: int| 0 <= i < mounts.len() implies !(
            #[trigger] mounts[i]).point.parts.is_prefix_of(path) by {
                assert(!fits(mounts[i]));
            }
        },
    }
}

/// A mount of snapshots is one whose point is called `.snapshots`, or with
/// an option that starts with `subvol=` and holds `snapshots`.
pub open spec fn holds_snapshots(mount: MountView) -> bool {
    ||| mount.point.parts.len() > 0 && mount.point.parts.last() == Part::Name(
        vstd::utf8::encode_utf8(".snapshots"@),
    )
    ||| exists|i: int|
        0 <= i < text::pieces(mount.options, ',').len() && puts_snapshots(
            #[trigger] text::pieces(mount.options, ',')[i],
        )
}

/// An option that starts with `subvol=` and holds `snapshots`.
pub open spec fn puts_snapshots(option: Seq<char>) -> bool {
    &&& "subvol="@.is_prefix_of(option)
    &&& exists|before: Seq<char>, after: Seq<char>|
        option == #[trigger] (before + "snapshots"@ + after)
}

proof fn lemma_snapshots(mount: MountView)
    ensures
        space::of_snapshots(mount) <==> holds_snapshots(mount),
{
    let all = text::pieces(mount.options, ',');
    let word = "snapshots"@;
    assert forall|i: int| 0 <= i < all.len() implies (space::snapshot_option(#[trigger] all[i])
        <==> puts_snapshots(all[i])) by {
        let option = all[i];
        if text::occurs_at(option, "subvol="@, 0) {
            assert("subvol="@.is_prefix_of(option));
        }
        if "subvol="@.is_prefix_of(option) {
            assert(option.subrange(0, "subvol="@.len() as int) =~= "subvol="@);
            assert(text::occurs_at(option, "subvol="@, 0));
        }
        if text::has_text(option, word) {
            let at = choose|at: int| text::occurs_at(option, word, at);
            let before = option.take(at);
            let after = option.skip(at + word.len());
            assert(option =~= before + word + after);
        }
        if exists|before: Seq<char>, after: Seq<char>|
            option == #[trigger] (before + word + after) {
            let (before, after) = choose|before: Seq<char>, after: Seq<char>|
                option == #[trigger] (before + word + after);
            let at = before.len() as int;
            assert(option.subrange(at, at + word.len()) =~= word);
            assert(text::occurs_at(option, word, at));
        }
    }
    if space::of_snapshots(mount) && path::last_name(mount.point.parts) != Some(
        vstd::utf8::encode_utf8(".snapshots"@),
    ) {
        let i = choose|i: int| 0 <= i < all.len() && space::snapshot_option(#[trigger] all[i]);
        assert(puts_snapshots(all[i]));
    }
    if holds_snapshots(mount) && path::last_name(mount.point.parts) != Some(
        vstd::utf8::encode_utf8(".snapshots"@),
    ) {
        let i = choose|i: int| 0 <= i < all.len() && puts_snapshots(#[trigger] all[i]);
        assert(space::snapshot_option(all[i]));
    }
}

/// What a scan of a volume must not enter is exactly the mounts strictly
/// below its root that come from another source or are of another type than
/// the mount the root is on, or are of snapshots, in the order of the table;
/// where the root is on no mount there are none.
pub proof fn lemma_foreign_exactly(mounts: Seq<MountView>, root: Seq<Part>)
    ensures
        match space::own_mount(mounts, root) {
            Some(own) => space::foreign_points(mounts, root) == mounts.filter(
                |m: MountView|
                    root.is_prefix_of(m.point.parts) && m.point.parts.len() > root.len() && (
                    m.source != own.source || m.fstype != own.fstype || holds_snapshots(m)),
            ).map_values(|m: MountView| m.point),
            None => space::foreign_points(mounts, root) == Seq::<PathView>::empty(),
        },
{
    if let Some(own) = space::own_mount(mounts, root) {
        let fits = space::is_foreign(root, own);
        let wanted = |m: MountView|
            root.is_prefix_of(m.point.parts) && m.point.parts.len() > root.len() && (m.source
                != own.source || m.fstype != own.fstype || holds_snapshots(m));
        assert forall|m: MountView| #[trigger] fits(m) == wanted(m) by {
            lemma_snapshots(m);
            guarding::lemma_inside(m.point.parts, root);
            if root.is_prefix_of(m.point.parts) && m.point.parts.len() == root.len() {
                assert(m.point.parts =~= root);
            }
        }
        marking::lemma_kept_passes(mounts, fits);
        lemma_filter_same(mounts, fits, wanted);
    }
}

/// Two filters that pass the same keep the same.
proof fn lemma_filter_same<T>(s: Seq<T>, one: spec_fn(T) -> bool, two: spec_fn(T) -> bool)
    requires
        forall|x: T| #[trigger] one(x) == two(x),
    ensures
        s.filter(one) == s.filter(two),
    decreases s.len(),
{
    reveal(Seq::filter);
    if s.len() > 0 {
        lemma_filter_same(s.drop_last(), one, two);
        assert(one(s.last()) == two(s.last()));
    }
}

/// The top of a path's disk is, of the mounts from the same source and of
/// the same type as the one the path is on that it is at or below, the point
/// that is spelled shortest, the first of them; there is one wherever the
/// path is on a mount.
pub proof fn lemma_disk_top_exactly(mounts: Seq<MountView>, path: Seq<Part>)
    ensures
        match space::own_mount(mounts, path) {
            Some(own) => space::disk_top(mounts, path) matches Some(top) && exists|i: int|
                {
                    &&& 0 <= i < mounts.len()
                    &&& (#[trigger] mounts[i]).point == top
                    &&& mounts[i].source == own.source
                    &&& mounts[i].fstype == own.fstype
                    &&& top.parts.is_prefix_of(path)
                    &&& forall|j: int|
                        0 <= j < mounts.len() && (#[trigger] mounts[j]).source == own.source
                            && mounts[j].fstype == own.fstype
                            && mounts[j].point.parts.is_prefix_of(path)
                            ==> mounts[j].point.text.len() >= top.text.len() && (j < i
                            ==> mounts[j].point.text.len() > top.text.len())
                },
            None => space::disk_top(mounts, path) is None,
        },
{
    if let Some(own) = space::own_mount(mounts, path) {
        let fits = space::same_disk(path, own);
        let size = space::point_length();
        lemma_own_mount_exactly(mounts, path);
        lemma_first_smallest_kept(mounts, fits, size);
        assert forall|j: int| 0 <= j < mounts.len() implies (fits(#[trigger] mounts[j])
            <==> mounts[j].source == own.source && mounts[j].fstype == own.fstype
            && mounts[j].point.parts.is_prefix_of(path)) by {
            guarding::lemma_inside(path, mounts[j].point.parts);
        }
        let k = choose|k: int| #[trigger] is_own(mounts, path, k) && mounts[k] == own;
        assert(fits(mounts[k]));
        let best = lists::first_smallest(lists::kept(mounts, fits), size)->0;
        let i = choose|i: int|
            {
                &&& 0 <= i < mounts.len()
                &&& #[trigger] mounts[i] == best
                &&& fits(best)
                &&& forall|j: int|
                    0 <= j < mounts.len() && fits(#[trigger] mounts[j]) ==> size(mounts[j])
                        >= size(best) && (j < i ==> size(mounts[j]) > size(best))
            };
        let top = best.point;
        assert(fits(mounts[i]));
        assert forall|j: int|
            0 <= j < mounts.len() && (#[trigger] mounts[j]).source == own.source && mounts[j].fstype
                == own.fstype && mounts[j].point.parts.is_prefix_of(
                path,
            ) implies mounts[j].point.text.len() >= top.text.len() && (j < i
            ==> mounts[j].point.text.len() > top.text.len()) by {
            assert(fits(mounts[j]));
            assert(size(mounts[j]) >= size(best));
        }
        assert(mounts[i].point == top);
    }
}

// ---------------------------------------------------------------------
// The table.
// ---------------------------------------------------------------------

/// The table is read line by line: a line of fewer than three fields names
/// no mount, and any other one, after those before it, with its source, its
/// point, its type and its options, where it has any.
pub proof fn lemma_table_by_line(lines: Seq<Seq<char>>, line: Seq<char>)
    ensures
        ({
            let all = text::fields(line);
            &&& space::mounts_of(Seq::<Seq<char>>::empty()) == Seq::<MountView>::empty()
            &&& all.len() < 3 ==> space::mounts_of(lines.push(line)) == space::mounts_of(lines)
            &&& all.len() >= 3 ==> space::mounts_of(lines.push(line)) == space::mounts_of(
                lines,
            ).push(
                MountView {
                    source: all[0],
                    point: guards::text_path(space::spaced(all[1])),
                    fstype: all[2],
                    options: if all.len() == 3 {
                        Seq::<char>::empty()
                    } else {
                        all[3]
                    },
                },
            )
        }),
{
    assert(lines.push(line).drop_last() =~= lines);
    assert(seq![] =~= Seq::<char>::empty());
}

/// A point without a backslash is as the table writes it; an escaped space
/// is a space, and what follows it is read on.
pub proof fn lemma_spaces_restored(before: Seq<char>, after: Seq<char>)
    requires
        !before.contains('\\'),
    ensures
        space::spaced(before) == before,
        space::spaced(before + "\\040"@ + after) == before + " "@ + space::spaced(after),
    decreases before.len(),
{
    reveal_strlit("\\040");
    let pat = "\\040"@;
    let whole = before + pat + after;
    if before.len() == 0 {
        assert(whole =~= pat + after);
        assert(whole.subrange(0, 4) =~= pat);
        assert(text::occurs_at(whole, pat, 0));
        assert(whole.skip(pat.len() as int) =~= after);
        assert(before + " "@ + space::spaced(after) =~= " "@ + space::spaced(after));
    } else {
        let rest = before.skip(1);
        assert(before.contains(before[0]));
        assert(!rest.contains('\\')) by {
            if rest.contains('\\') {
                let i = choose|i: int| 0 <= i < rest.len() && rest[i] == '\\';
                assert(before[i + 1] == '\\');
            }
        }
        lemma_spaces_restored(rest, after);
        if text::occurs_at(whole, pat, 0) {
            assert(whole.subrange(0, 4)[0] == pat[0]);
        }
        if text::occurs_at(before, pat, 0) {
            assert(before.subrange(0, 4)[0] == pat[0]);
        }
        assert(whole.skip(1) =~= rest + pat + after);
        assert(seq![before[0]] + rest =~= before);
        assert(seq![before[0]] + (rest + " "@ + space::spaced(after)) =~= before + " "@
            + space::spaced(after));
    }
}

/// Whether a line names a point that the path is at or below.
pub open spec fn line_over(line: Seq<char>, path: Seq<Part>) -> bool {
    &&& text::fields(line).len() >= 2
    &&& guards::text_path(space::spaced(text::fields(line)[1])).parts.is_prefix_of(path)
}

/// How long the point that a line names is spelled.
pub open spec fn line_length(line: Seq<char>) -> nat {
    guards::text_path(space::spaced(text::fields(line)[1])).text.len()
}

/// The line at `i` names a point the path is at or below; no other such is
/// longer, and no later one as long.
pub open spec fn is_own_line(lines: Seq<Seq<char>>, path: Seq<Part>, i: int) -> bool {
    &&& 0 <= i < lines.len()
    &&& line_over(lines[i], path)
    &&& forall|j: int|
        0 <= j < lines.len() && line_over(#[trigger] lines[j], path) ==> line_length(lines[j])
            <= line_length(lines[i]) && (j > i ==> line_length(lines[j]) < line_length(lines[i]))
}

proof fn lemma_device_lines(lines: Seq<Seq<char>>, path: Seq<Part>)
    ensures
        match lists::last_largest(
            space::devices_of(lines, path),
            |device: DeviceView| device.length,
        ) {
            Some(best) => exists|i: int|
                #[trigger] is_own_line(lines, path, i) && best.device == text::fields(lines[i])[0]
                    && best.length == line_length(lines[i]),
            None => forall|i: int| 0 <= i < lines.len() ==> !line_over(#[trigger] lines[i], path),
        },
    decreases lines.len(),
{
    let size = |device: DeviceView| device.length;
    if lines.len() > 0 {
        let front = lines.drop_last();
        let last = lines.last();
        let n = lines.len() - 1;
        assert(lines[n] == last);
        lemma_device_lines(front, path);
        let before = space::devices_of(front, path);
        if text::fields(last).len() >= 2 {
            guarding::lemma_inside(
                path,
                guards::text_path(space::spaced(text::fields(last)[1])).parts,
            );
        }
        assert(space::device_of(last, path) is Some <==> line_over(last, path));
        assert forall|j: int| 0 <= j < n implies front[j] == #[trigger] lines[j] by {}
        if let Some(device) = space::device_of(last, path) {
            assert(before.push(device).drop_last() =~= before);
        }
        match lists::last_largest(before, size) {
            Some(best) => {
                let i = choose|i: int|
                    #[trigger] is_own_line(front, path, i) && best.device == text::fields(
                        front[i],
                    )[0] && best.length == line_length(front[i]);
                assert(lines[i] == front[i]);
                assert forall|j: int| 0 <= j < n && line_over(#[trigger] lines[j], path) implies
                    line_length(lines[j]) <= line_length(lines[i]) && (j > i ==> line_length(
                    lines[j],
                ) < line_length(lines[i])) by {
                    assert(lines[j] == front[j]);
                }
                if !line_over(last, path) || line_length(last) < line_length(lines[i]) {
                    assert(is_own_line(lines, path, i));
                } else {
                    assert(is_own_line(lines, path, n));
                }
            },
            None => {
                assert forall|j: int| 0 <= j < n implies !line_over(#[trigger] lines[j], path) by {
                    assert(lines[j] == front[j]);
                }
                if line_over(last, path) {
                    assert(is_own_line(lines, path, n));
                }
            },
        }
    }
}

/// The device of a path is what the table mounts at the longest point that
/// the path is at or below, by the last line that names it; there is one
/// wherever a line names such a point.
pub proof fn lemma_device_exactly(table: Seq<char>, path: Seq<Part>)
    ensures
        ({
            let lines = text::lines(table);
            match space::device_by(table, path) {
                Some(device) => exists|i: int|
                    #[trigger] is_own_line(lines, path, i) && device == text::fields(lines[i])[0],
                None => forall|i: int|
                    0 <= i < lines.len() ==> !line_over(#[trigger] lines[i], path),
            }
        }),
{
    let lines = text::lines(table);
    lemma_device_lines(lines, path);
    let best = lists::last_largest(
        space::devices_of(lines, path),
        |device: DeviceView| device.length,
    );
    if best is Some {
        let i = choose|i: int|
            #[trigger] is_own_line(lines, path, i) && best->0.device == text::fields(lines[i])[0]
                && best->0.length == line_length(lines[i]);
        assert(is_own_line(lines, path, i));
    }
}

/// The text before the first NUL.
pub open spec fn before_nul(field: Seq<u8>, text: Seq<u8>) -> bool {
    &&& !text.contains(0)
    &&& text.is_prefix_of(field)
    &&& text.len() < field.len() ==> field[text.len() as int] == 0
}

/// A field of a C structure is read up to its first NUL.
pub proof fn lemma_c_text(field: Seq<u8>)
    ensures
        before_nul(field, space::c_text(field)),
{
    text::lemma_first_of(field, 0u8);
    let at = text::first_of(field, 0u8) as int;
    let text = space::c_text(field);
    if text.contains(0) {
        let i = choose|i: int| 0 <= i < text.len() && text[i] == 0;
        assert(field[i] == 0);
    }
}

/// What names a device: the mount table on Linux, where it can be read; what
/// the file system says of itself on macOS, unless that is nothing; and the
/// volume's root on Windows.
pub proof fn lemma_device_named(source: DeviceSource)
    ensures
        match source {
            DeviceSource::Proc { table, path } => {
                &&& table is None ==> space::device_name(source) is None
                &&& table matches Some(table) ==> space::device_name(source) == space::device_by(
                    table@,
                    path@.parts,
                )
            },
            DeviceSource::FileSystem(field) => {
                &&& field is None ==> space::device_name(source) is None
                &&& field matches Some(field) ==> {
                    let name = text::shown(space::c_text(field@));
                    &&& name.len() == 0 ==> space::device_name(source) is None
                    &&& name.len() > 0 ==> space::device_name(source) == Some(name)
                }
            },
            DeviceSource::Volume(root) => {
                &&& root is None ==> space::device_name(source) is None
                &&& root matches Some(root) ==> space::device_name(source) == Some(
                    path::displayed(Platform::Windows, root@.text),
                )
            },
        },
{
}

/// What is the top of a volume: by the mount table on Linux, where it can be
/// read; the file system's own mount point on macOS, but `/` for the Data
/// volume, and nothing where it says nothing; and the volume's root on
/// Windows.
pub proof fn lemma_volume_named(source: VolumeSource)
    ensures
        match source {
            VolumeSource::Proc { table, path } => {
                &&& table is None ==> space::volume_top(source) is None
                &&& table matches Some(table) ==> space::volume_top(source) == space::disk_top(
                    space::mounts_of(text::lines(table@)),
                    path@.parts,
                )
            },
            VolumeSource::FileSystem(field) => {
                &&& field is None ==> space::volume_top(source) is None
                &&& field matches Some(field) ==> {
                    let name = text::shown(space::c_text(field@));
                    let data = guards::text_path("/System/Volumes/Data"@).parts;
                    &&& name.len() == 0 <==> space::volume_top(source) is None
                    &&& name.len() > 0 && guards::text_path(name).parts == data
                        ==> space::volume_top(source) == Some(guards::text_path("/"@))
                    &&& name.len() > 0 && guards::text_path(name).parts != data
                        ==> space::volume_top(source) == Some(guards::text_path(name))
                }
            },
            VolumeSource::Volume(root) => {
                &&& root is None ==> space::volume_top(source) is None
                &&& root matches Some(root) ==> space::volume_top(source) == Some(root@)
            },
        },
{
}

/// Only on macOS is anything never scanned: the Data volume's second mount
/// and the automount point of the network, each where it is strictly below
/// where the root really is, and in the root's own spelling.
pub proof fn lemma_never_scanned_exactly(platform: Platform, root: PathView, canonical: Seq<Part>)
    ensures
        ({
            let skipped = space::always_skipped(platform, root, canonical);
            let data = guards::text_path("/System/Volumes/Data"@).parts;
            let network = guards::text_path("/Network"@).parts;
            let below = |place: Seq<Part>|
                canonical.is_prefix_of(place) && place.len() > canonical.len();
            let spelled = |place: Seq<Part>|
                path::joined(
                    Platform::MacOs,
                    root,
                    place.subrange(canonical.len() as int, place.len() as int),
                );
            &&& !(platform is MacOs) ==> skipped.len() == 0
            &&& platform is MacOs && below(data) && below(network) ==> skipped == seq![
                spelled(data),
                spelled(network),
            ]
            &&& platform is MacOs && below(data) && !below(network) ==> skipped == seq![
                spelled(data),
            ]
            &&& platform is MacOs && !below(data) && below(network) ==> skipped == seq![
                spelled(network),
            ]
            &&& platform is MacOs && !below(data) && !below(network) ==> skipped.len() == 0
        }),
{
    let data = guards::text_path("/System/Volumes/Data"@).parts;
    let network = guards::text_path("/Network"@).parts;
    guarding::lemma_inside(data, canonical);
    guarding::lemma_inside(network, canonical);
    let n = canonical.len() as int;
    if canonical.is_prefix_of(data) {
        assert(data.skip(n) =~= data.subrange(n, data.len() as int));
    }
    if canonical.is_prefix_of(network) {
        assert(network.skip(n) =~= network.subrange(n, network.len() as int));
    }
    let skipped = space::always_skipped(platform, root, canonical);
    let a = space::skipped(guards::MACOS_DATA_VOLUME@, root, canonical);
    let b = space::skipped("/Network"@, root, canonical);
    assert(platform is MacOs ==> skipped =~= a + b);
}

/// What is used is what is not free, and nothing where more is reported free
/// than there is; and a volume is as many units large as its file system
/// counts, as far as that can be counted, in fragments, or in blocks where
/// no fragment size is reported.
pub proof fn lemma_space_reported(
    space: &SpaceInfo,
    used: u64,
    counts: BlockCounts,
    info: SpaceInfo,
    bytes: u64,
    after: SpaceInfo,
)
    ensures
        call_ensures(SpaceInfo::used, (space,), used) ==> {
            &&& space.free <= space.total ==> used + space.free == space.total
            &&& space.free > space.total ==> used == 0
        },
        call_ensures(space::space_info, (counts,), info) ==> {
            let unit = if counts.fragment > 0 {
                counts.fragment
            } else {
                counts.block
            };
            &&& counts.total * unit <= u64::MAX ==> info.total == counts.total * unit
            &&& counts.total * unit > u64::MAX ==> info.total == u64::MAX
            &&& counts.free * unit <= u64::MAX ==> info.free == counts.free * unit
            &&& counts.free * unit > u64::MAX ==> info.free == u64::MAX
            &&& counts.available * unit <= u64::MAX ==> info.available == counts.available * unit
            &&& counts.available * unit > u64::MAX ==> info.available == u64::MAX
        },
        call_ensures(SpaceInfo::after_removing, (space, bytes), after) ==> after
            == space::space_after(*space, bytes as nat),
{
}

/// The disk of `/` on macOS is asked for at the Data volume, and that of any
/// other path at the path itself; a scan on Windows has no mounts to stay
/// out of, and elsewhere those of the table, where it can be read.
pub proof fn lemma_asked_where(
    path: &PathBuf,
    place: PathBuf,
    platform: Platform,
    table: Option<&str>,
    points: Option<Vec<PathBuf>>,
)
    ensures
        call_ensures(space::device_path, (path,), place) ==> {
            &&& path@.parts == seq![Part::Root] ==> place@ == guards::text_path(
                "/System/Volumes/Data"@,
            )
            &&& path@.parts != seq![Part::Root] ==> place@ == path@
        },
        call_ensures(space::foreign_mounts_for, (platform, table, path), points) ==> {
            &&& platform is Windows ==> points is Some && points->0@.len() == 0
            &&& !(platform is Windows) && table is None ==> points is None
            &&& !(platform is Windows) && table is Some ==> points is Some
                && points->0.deep_view() == space::foreign_points(
                space::mounts_of(text::lines(table->0@)),
                path@.parts,
            )
        },
{
}

} // verus!
