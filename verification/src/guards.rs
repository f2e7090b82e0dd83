//! How the guards compare paths: lexically normalized, and where the
//! platform has more than one spelling for a place, in one of them.
//!
//! macOS reaches the same directory under two names, `/Users/x` and
//! `/System/Volumes/Data/Users/x`, and its disks ignore case by default.
//! Windows ignores case too, and `\\?\C:\` is `C:\`. A guard that compared
//! the spelling would be passed by the other one. Keys are only for judging:
//! what is removed is always the path as marked.

use vstd::prelude::*;

use crate::path;
use crate::path::{Component, Part, PathBuf, PathView, Prefix, PrefixPart};
use crate::platform::Platform;
use crate::text;
use crate::wide;

verus! {

// ---------------------------------------------------------------------
// Normalizing.
// ---------------------------------------------------------------------

/// What reading `part` makes of the components read so far. A `..` takes
/// back a name; at the start of a relative path it stays, and after a root
/// or a prefix it has nowhere to go.
pub open spec fn normal_step(out: Seq<Part>, part: Part) -> Seq<Part> {
    match part {
        Part::Cur => out,
        Part::Parent => if out.len() == 0 || out.last() is Parent {
            out.push(Part::Parent)
        } else if out.last() is Name {
            out.drop_last()
        } else {
            out
        },
        _ => out.push(part),
    }
}

/// `parts` with `.` and `..` resolved from left to right.
pub open spec fn normal(parts: Seq<Part>) -> Seq<Part>
    decreases parts.len(),
{
    if parts.len() == 0 {
        seq![]
    } else {
        normal_step(normal(parts.drop_last()), parts.last())
    }
}

/// What reading `part` makes of the components of a Windows path read so
/// far. A name is pushed, and read again as it is: one that starts with a
/// drive, as the name of a stream may, is a path of its own.
pub open spec fn wide_normal_step(out: Seq<Part>, part: Part) -> Seq<Part> {
    match part {
        Part::Cur => out,
        Part::Parent => if out.len() == 0 || (out[0] is Parent && out.last() is Parent) {
            out.push(Part::Parent)
        } else if out.last() is Name {
            out.drop_last()
        } else {
            out
        },
        Part::Prefix(_) => seq![part],
        _ => wide::pushed_parts(out, path::part_text(92, part)),
    }
}

/// The components `parts` of a Windows path, with `.` and `..` resolved from
/// left to right.
pub open spec fn wide_normal(parts: Seq<Part>) -> Seq<Part>
    decreases parts.len(),
{
    if parts.len() == 0 {
        seq![]
    } else {
        wide_normal_step(wide_normal(parts.drop_last()), parts.last())
    }
}

/// `parts` with `.` and `..` resolved from left to right.
pub open spec fn normal_on(platform: Platform, parts: Seq<Part>) -> Seq<Part> {
    if platform is Windows {
        wide_normal(parts)
    } else {
        normal(parts)
    }
}

/// The Windows path that follows from reading `part` of `path` after `out`.
pub open spec fn wide_step(path: PathView, out: PathView, part: Part) -> PathView {
    match part {
        Part::Cur => out,
        Part::Parent => {
            let parts = wide_normal_step(out.parts, part);
            if parts == out.parts {
                out
            } else {
                path::respelled(Platform::Windows, out, parts)
            }
        },
        Part::Prefix(prefix) => PathView {
            text: path::prefix_as_spelled(path, prefix),
            parts: seq![part],
        },
        _ => wide::pushed(out, path::part_text(92, part)),
    }
}

/// The Windows path that follows from reading the components `parts` of
/// `path`.
pub open spec fn wide_clean(path: PathView, parts: Seq<Part>) -> PathView
    decreases parts.len(),
{
    if parts.len() == 0 {
        PathView { text: seq![], parts: seq![] }
    } else {
        wide_step(path, wide_clean(path, parts.drop_last()), parts.last())
    }
}

/// A path, normalized.
pub open spec fn clean(platform: Platform, path: PathView) -> PathView {
    if platform is Windows {
        wide_clean(path, path.parts)
    } else {
        path::built(platform, normal(path.parts))
    }
}

/// A normalized path has the normalized components.
pub proof fn lemma_clean_parts(platform: Platform, path: PathView)
    ensures
        clean(platform, path).parts == normal_on(platform, path.parts),
{
    lemma_wide_clean_parts(path, path.parts);
}

proof fn lemma_wide_clean_parts(path: PathView, parts: Seq<Part>)
    ensures
        wide_clean(path, parts).parts == wide_normal(parts),
    decreases parts.len(),
{
    if parts.len() > 0 {
        lemma_wide_clean_parts(path, parts.drop_last());
    }
}

/// Lexically normalize a path: resolve `.` and `..` without touching the
/// filesystem, so a symlink can never redirect a guard.
///
/// A `..` at the root has nowhere to go, so `/..` is `/` rather than the empty
/// path. A leading `..` on a relative path is preserved, and so is the
/// spelling of a Windows prefix.
pub fn normalize(platform: Platform, path: &PathBuf) -> (r: PathBuf)
    ensures
        r@ == clean(platform, path@),
{
    if let Platform::Windows = platform {
        return normalize_wide(path);
    }
    let ghost all = path@.parts;
    let mut out: Vec<Component> = Vec::new();
    let mut i: usize = 0;
    assert(out.deep_view() =~= normal(all.take(0)));
    while i < path.parts.len()
        invariant
            i <= path.parts@.len(),
            all == path@.parts,
            out.deep_view() == normal(all.take(i as int)),
        decreases path.parts@.len() - i,
    {
        let ghost before = out.deep_view();
        proof {
            assert(all.take(i + 1).drop_last() =~= all.take(i as int));
            assert(all.take(i + 1).last() == path.parts@[i as int]@);
        }
        match &path.parts[i] {
            Component::CurDir => {},
            Component::ParentDir => {
                let n: usize = out.len();
                assert(n > 0 ==> before.last() == out@[n - 1]@);
                let leads: bool = n == 0 || match &out[n - 1] {
                    Component::ParentDir => true,
                    _ => false,
                };
                let named: bool = n > 0 && match &out[n - 1] {
                    Component::Normal(_) => true,
                    _ => false,
                };
                if leads {
                    out.push(Component::ParentDir);
                    assert(out.deep_view() =~= before.push(Part::Parent));
                } else if named {
                    out.pop();
                    assert(out.deep_view() =~= before.drop_last());
                }
            },
            part => {
                out.push(part.clone());
                assert(out.deep_view() =~= before.push(part@));
            },
        }
        assert(out.deep_view() =~= normal(all.take(i + 1)));
        i += 1;
    }
    assert(all.take(all.len() as int) =~= all);
    PathBuf::build(platform, out)
}

/// What a `..` makes of the components of a Windows path read so far.
fn step_up(parts: &[Component]) -> (r: Vec<Component>)
    ensures
        r.deep_view() == wide_normal_step(parts.deep_view(), Part::Parent),
{
    let ghost before = parts.deep_view();
    let n: usize = parts.len();
    assert(before.len() == n);
    let mut out = path::copy_parts(parts);
    if n == 0 {
        out.push(Component::ParentDir);
        assert(out.deep_view() =~= before.push(Part::Parent));
        return out;
    }
    assert(before[0] == parts@[0]@ && before.last() == parts@[n - 1]@);
    let first: bool = match &parts[0] {
        Component::ParentDir => true,
        _ => false,
    };
    match &parts[n - 1] {
        Component::ParentDir if first => {
            out.push(Component::ParentDir);
            assert(out.deep_view() =~= before.push(Part::Parent));
        },
        Component::Normal(_) => {
            out.pop();
            assert(out.deep_view() =~= before.drop_last());
        },
        _ => {},
    }
    out
}

/// A Windows path, normalized.
fn normalize_wide(path: &PathBuf) -> (r: PathBuf)
    ensures
        r@ == wide_clean(path@, path@.parts),
{
    let ghost all = path@.parts;
    let mut out = PathBuf { text: Vec::new(), parts: Vec::new() };
    let mut i: usize = 0;
    assert(out@.parts =~= Seq::<Part>::empty());
    assert(out@ == wide_clean(path@, all.take(0)));
    while i < path.parts.len()
        invariant
            i <= path.parts@.len(),
            all == path@.parts,
            out@ == wide_clean(path@, all.take(i as int)),
        decreases path.parts@.len() - i,
    {
        proof {
            assert(all.take(i + 1).drop_last() =~= all.take(i as int));
            assert(all.take(i + 1).last() == path.parts@[i as int]@);
        }
        match &path.parts[i] {
            Component::CurDir => {},
            Component::ParentDir => {
                let parts = step_up(out.parts.as_slice());
                assert(parts.deep_view().len() == parts.len());
                assert(out@.parts.len() == out.parts.len());
                if parts.len() != out.parts.len() {
                    out = out.respell(Platform::Windows, parts);
                }
            },
            Component::Prefix(prefix) => {
                let parts: Vec<Component> = vec![path.parts[i].clone()];
                assert(parts.deep_view() =~= seq![path.parts@[i as int]@]);
                out = PathBuf { text: path.spelled_prefix(prefix), parts };
            },
            part => {
                out = wide::push(&out, part.spelled(92).as_slice());
            },
        }
        i += 1;
    }
    assert(all.take(all.len() as int) =~= all);
    out
}

/// Components that normalizing leaves as they are: no `.`, and `..` only at
/// the front, before everything else.
pub open spec fn is_normal(parts: Seq<Part>) -> bool {
    forall|i: int|
        0 <= i < parts.len() ==> (#[trigger] parts[i]) !is Cur && (parts[i] is Parent ==> i == 0
            || parts[i - 1] is Parent)
}

proof fn lemma_normal_shape(parts: Seq<Part>)
    ensures
        is_normal(normal(parts)),
    decreases parts.len(),
{
    if parts.len() > 0 {
        let before = normal(parts.drop_last());
        lemma_normal_shape(parts.drop_last());
        assert forall|i: int| 0 <= i < normal(parts).len() implies (#[trigger] normal(parts)[i])
            !is Cur && (normal(parts)[i] is Parent ==> i == 0 || normal(parts)[i - 1] is Parent) by {
            if i < before.len() {
                assert(normal(parts)[i] == before[i]);
                if i > 0 {
                    assert(normal(parts)[i - 1] == before[i - 1]);
                }
            } else if i > 0 {
                assert(normal(parts)[i - 1] == before.last());
            }
        }
    }
}

/// Components that are normal stay as they are.
pub proof fn lemma_normal_fixed(parts: Seq<Part>)
    requires
        is_normal(parts),
    ensures
        normal(parts) == parts,
    decreases parts.len(),
{
    if parts.len() > 0 {
        let front = parts.drop_last();
        assert forall|i: int| 0 <= i < front.len() implies (#[trigger] front[i]) !is Cur && (
        front[i] is Parent ==> i == 0 || front[i - 1] is Parent) by {
            assert(front[i] == parts[i]);
            if i > 0 {
                assert(front[i - 1] == parts[i - 1]);
            }
        }
        lemma_normal_fixed(front);
        assert(parts[parts.len() - 1] == parts.last());
        assert(front.push(parts.last()) =~= parts);
        if parts.len() > 1 {
            assert(front.last() == parts[parts.len() - 2]);
        }
    }
}

/// Normalizing twice is normalizing once.
pub proof fn lemma_normal_idempotent(parts: Seq<Part>)
    ensures
        normal(normal(parts)) == normal(parts),
{
    lemma_normal_shape(parts);
    lemma_normal_fixed(normal(parts));
}

/// A normalized path has the components of its spelling, where the path had
/// those of its own.
pub proof fn lemma_clean_wf(platform: Platform, path: PathView)
    requires
        path.wf(platform),
    ensures
        clean(platform, path).wf(platform),
{
    if !(platform is Windows) {
        path::lemma_unix_parts_shape(path.text);
        lemma_normal_unix(path.parts);
        path::lemma_unix_round_trip(normal(path.parts));
    }
}

/// A Windows path that is spelled plainly and reads as it is: nothing in it
/// is resolved, and none of its names is read as something else.
pub open spec fn is_settled(path: PathView) -> bool {
    &&& wide::is_plain(path.parts)
    &&& is_normal(path.parts)
    &&& path::respelled(Platform::Windows, path, path.parts) == path
}

/// Normalizing a path twice is normalizing it once, in its spelling too. On
/// Windows that holds where what came of it reads as it is: `a:..` is what
/// comes of a stream called `..`, and is read as a drive and a `..`.
pub proof fn lemma_clean_idempotent(platform: Platform, path: PathView)
    requires
        platform is Windows ==> is_settled(clean(platform, path)),
    ensures
        clean(platform, clean(platform, path)) == clean(platform, path),
{
    if platform is Windows {
        let once = clean(platform, path);
        lemma_wide_plain(once, once.parts);
        lemma_normal_fixed(once.parts);
    } else {
        lemma_normal_idempotent(path.parts);
    }
}

/// A Windows path none of whose names is read as something else has its dots
/// resolved, and nothing more, and is settled then.
pub proof fn lemma_plain_settles(path: PathView)
    requires
        wide::is_plain(path.parts),
    ensures
        clean(Platform::Windows, path) == path::respelled(
            Platform::Windows,
            path,
            normal(path.parts),
        ),
        is_settled(clean(Platform::Windows, path)),
{
    lemma_wide_plain(path, path.parts);
    lemma_normal_shape(path.parts);
    path::lemma_respelled_again(Platform::Windows, path, normal(path.parts));
}

proof fn lemma_parents_lead(parts: Seq<Part>)
    requires
        is_normal(parts),
        parts.len() > 0,
        parts.last() is Parent,
    ensures
        parts[0] is Parent,
    decreases parts.len(),
{
    assert(parts.last() == parts[parts.len() - 1]);
    if parts.len() > 1 {
        let front = parts.drop_last();
        assert forall|i: int| 0 <= i < front.len() implies (#[trigger] front[i]) !is Cur && (
        front[i] is Parent ==> i == 0 || front[i - 1] is Parent) by {
            assert(front[i] == parts[i]);
            if i > 0 {
                assert(front[i - 1] == parts[i - 1]);
            }
        }
        assert(front.last() == parts[parts.len() - 2]);
        lemma_parents_lead(front);
    }
}

/// A Windows path whose names are read as themselves has its dots resolved,
/// and is spelled as it was.
pub proof fn lemma_wide_plain(path: PathView, parts: Seq<Part>)
    requires
        wide::is_plain(parts),
    ensures
        wide_clean(path, parts) == path::respelled(Platform::Windows, path, normal(parts)),
        wide::is_plain(normal(parts)),
        parts.len() > 1 && parts[0] is Prefix && parts[1] is Root ==> normal(parts).len() > 1
            && normal(parts)[0] == parts[0] && normal(parts)[1] is Root,
        parts.len() <= 1 ==> normal(parts).len() <= parts.len(),
        parts.len() > 0 && parts[0] is Prefix ==> normal(parts).len() > 0 && normal(parts)[0]
            == parts[0],
        normal(parts).len() > 0 && normal(parts)[0] is Prefix ==> parts.len() > 0 && parts[0]
            == normal(parts)[0],
    decreases parts.len(),
{
    let after = normal(parts);
    if parts.len() == 0 {
        assert(path::respelled(Platform::Windows, path, after).text =~= Seq::<u8>::empty());
    } else {
        let front = parts.drop_last();
        let part = parts.last();
        assert(part == parts[parts.len() - 1]);
        wide::lemma_plain_front(parts);
        lemma_wide_plain(path, front);
        lemma_normal_shape(front);
        let before = normal(front);
        let out = path::respelled(Platform::Windows, path, before);
        assert(front.len() > 0 ==> front[0] == parts[0]);
        assert(front.len() > 1 ==> front[1] == parts[1]);
        match part {
            Part::Cur => {},
            Part::Parent => {
                if before.len() > 0 && before.last() is Parent {
                    lemma_parents_lead(before);
                }
                path::lemma_respelled_lead(path, before, wide_normal_step(before, part));
                if before.len() > 0 && before.last() is Name {
                    wide::lemma_plain_front(before);
                } else if after != before {
                    assert(wide::is_plain(after)) by {
                        assert(after == before.push(Part::Parent));
                        wide::lemma_plain_push(before, part);
                    }
                }
            },
            Part::Prefix(prefix) => {
                assert(parts.len() == 1);
                assert(before =~= Seq::<Part>::empty());
                assert(after =~= seq![part]);
                assert(after.drop_last() =~= Seq::<Part>::empty());
                let usual = path::render(92, after);
                assert(path::render(92, after.drop_last()) =~= Seq::<u8>::empty());
                assert(usual =~= path::prefix_text(prefix));
                assert(usual.skip(path::prefix_text(prefix).len() as int)
                    =~= Seq::<u8>::empty());
                assert(wide_clean(path, parts).text =~= path::respelled(
                    Platform::Windows,
                    path,
                    after,
                ).text);
            },
            Part::Root => {
                assert(before.len() <= 1);
                assert(before.len() == 1 ==> before[0] is Prefix);
                wide::lemma_plain_root(path, before);
                wide::lemma_plain_push(before, part);
            },
            Part::Name(name) => {
                wide::lemma_plain_name(path, before, name);
                wide::lemma_plain_push(before, part);
            },
        }
    }
}

/// Leading `..` stay, however many there are, as long as nothing but names
/// and more of them follow: a path that leads out of where it starts is not
/// read as one that stays inside.
pub proof fn lemma_leading_parents_stay(ups: nat, names: Seq<Part>)
    requires
        forall|i: int| 0 <= i < names.len() ==> (#[trigger] names[i]) is Name,
    ensures
        normal(Seq::new(ups, |i: int| Part::Parent) + names) == Seq::new(
            ups,
            |i: int| Part::Parent,
        ) + names,
{
    let parts = Seq::new(ups, |i: int| Part::Parent) + names;
    assert forall|i: int| 0 <= i < parts.len() implies (#[trigger] parts[i]) !is Cur && (parts[i]
        is Parent ==> i == 0 || parts[i - 1] is Parent) by {
        if i >= ups {
            assert(parts[i] == names[i - ups]);
        }
    }
    lemma_normal_fixed(parts);
}

/// Normalizing an absolute path leaves an absolute path without any dots,
/// so nothing in it can lead back out of the root.
pub proof fn lemma_normal_absolute(parts: Seq<Part>)
    requires
        path::unix_shaped(parts),
        parts.len() > 0,
        parts[0] is Root,
    ensures
        normal(parts).len() > 0,
        normal(parts)[0] is Root,
        forall|i: int|
            0 < i < normal(parts).len() ==> (#[trigger] normal(parts)[i]) is Name,
    decreases parts.len(),
{
    let front = parts.drop_last();
    if front.len() == 0 {
        assert(parts[0] == parts.last());
        reveal_with_fuel(normal, 2);
        assert(normal(front) =~= Seq::<Part>::empty());
        assert(normal(parts) =~= seq![Part::Root]);
    } else {
        assert forall|i: int| 0 <= i < front.len() implies match #[trigger] front[i] {
            Part::Prefix(_) => false,
            Part::Root => i == 0,
            Part::Cur => i == 0,
            Part::Parent => true,
            Part::Name(name) => path::real_name(name),
        } by {
            assert(front[i] == parts[i]);
        }
        lemma_normal_absolute(front);
        assert(parts[parts.len() - 1] == parts.last());
        let out = normal(front);
        if parts.last() is Parent {
            assert(out[out.len() - 1] == out.last());
        }
    }
}

/// The components of a Unix path stay those of a Unix path.
pub proof fn lemma_normal_unix(parts: Seq<Part>)
    requires
        path::unix_shaped(parts),
    ensures
        path::unix_shaped(normal(parts)),
    decreases parts.len(),
{
    if parts.len() > 0 {
        let front = parts.drop_last();
        assert forall|i: int| 0 <= i < front.len() implies match #[trigger] front[i] {
            Part::Prefix(_) => false,
            Part::Root => i == 0,
            Part::Cur => i == 0,
            Part::Parent => true,
            Part::Name(name) => path::real_name(name),
        } by {
            assert(front[i] == parts[i]);
        }
        lemma_normal_unix(front);
        assert(parts[parts.len() - 1] == parts.last());
        if parts.last() is Root {
            assert(parts.len() == 1);
            assert(normal(front) =~= Seq::<Part>::empty());
        }
    }
}

/// The spelling [`normalize`] gives a Unix path is read back as the path it
/// is of: showing a normalized path loses nothing.
pub proof fn lemma_normalized_spelling(path: Seq<u8>)
    ensures
        path::unix_path(path::render(47, normal(path::unix_parts(path)))).parts == normal(
            path::unix_parts(path),
        ),
{
    path::lemma_unix_parts_shape(path);
    lemma_normal_unix(path::unix_parts(path));
    path::lemma_unix_round_trip(normal(path::unix_parts(path)));
}

// ---------------------------------------------------------------------
// Keys.
// ---------------------------------------------------------------------

/// Where the Data volume is mounted on macOS.
///
/// Since Catalina `/` is a read-only system volume, and everything the user
/// can write lives on the Data volume, joined into `/` by firmlinks. The two
/// report the same device, and `/Users` and `/System/Volumes/Data/Users` are
/// the same inode.
pub const MACOS_DATA_VOLUME: &'static str = "/System/Volumes/Data";

/// The Unix path spelled with the UTF-8 bytes of `text`.
pub open spec fn text_path(text: Seq<char>) -> PathView {
    path::unix_path(vstd::utf8::encode_utf8(text))
}

/// The name `bytes` without regard to case, as bytes.
pub open spec fn folded_bytes(platform: Platform, bytes: Seq<u8>) -> Seq<u8> {
    vstd::utf8::encode_utf8(text::lowered(path::displayed(platform, bytes)))
}

/// A component without regard to case.
pub open spec fn folded_name(part: Part) -> Part {
    match part {
        Part::Name(name) => Part::Name(folded_bytes(Platform::MacOs, name)),
        other => other,
    }
}

/// Components without regard to case.
pub open spec fn folded_names(parts: Seq<Part>) -> Seq<Part> {
    parts.map_values(|part: Part| folded_name(part))
}

/// The Data volume's components without regard to case: see
/// [`lemma_data_volume`].
pub open spec fn data_volume() -> Seq<Part> {
    seq![
        Part::Root,
        Part::Name(vstd::utf8::encode_utf8("system"@)),
        Part::Name(vstd::utf8::encode_utf8("volumes"@)),
        Part::Name(vstd::utf8::encode_utf8("data"@)),
    ]
}

/// `parts`, in which case is folded, as named from `/`, when they are named
/// from the Data volume. The Data volume's own root stays as it is: it is
/// under `/System`.
pub open spec fn without_data_volume(parts: Seq<Part>) -> Seq<Part>
    decreases parts.len(),
{
    if path::inside(parts, data_volume()) && parts.len() > data_volume().len() {
        without_data_volume(seq![Part::Root] + parts.skip(data_volume().len() as int))
    } else {
        parts
    }
}

/// The key of a Unix path: normalized, and on macOS without regard to case
/// and named from `/`.
pub open spec fn unix_key(parts: Seq<Part>, macos: bool) -> PathView {
    let clean = normal(parts);
    path::built(
        Platform::Linux,
        if macos {
            without_data_volume(folded_names(clean))
        } else {
            clean
        },
    )
}

/// An ASCII capital as its small letter, any other byte as it is.
pub open spec fn lower_byte(byte: u8) -> u8 {
    if 65 <= byte <= 90 {
        (byte + 32) as u8
    } else {
        byte
    }
}

/// How a component is spelled in the form Windows would treat as equal:
/// without regard to case, and with `\\?\C:` the same drive as `C:`.
pub open spec fn folded_text(part: Part) -> Seq<u8> {
    let fold = |bytes: Seq<u8>| folded_bytes(Platform::Windows, bytes);
    match part {
        Part::Prefix(prefix) => match prefix {
            PrefixPart::Disk(letter) | PrefixPart::VerbatimDisk(letter) => seq![
                lower_byte(letter),
                58,
            ],
            PrefixPart::Unc(server, share) | PrefixPart::VerbatimUnc(server, share) => seq![
                92u8,
                92,
            ] + fold(server) + seq![92u8] + fold(share),
            PrefixPart::Verbatim(name) => seq![92u8, 92, 63, 92] + fold(name),
            PrefixPart::DeviceNs(name) => seq![92u8, 92, 46, 92] + fold(name),
        },
        Part::Name(name) => fold(name),
        other => path::part_text(92, other),
    }
}

/// How components are spelled in the form Windows would treat as equal.
pub open spec fn folded_texts(parts: Seq<Part>) -> Seq<Seq<u8>> {
    parts.map_values(|part: Part| folded_text(part))
}

/// `out`, once the folded spelling of `part` was pushed onto it.
pub open spec fn folded_step(out: PathView, part: Part) -> PathView {
    match part {
        Part::Prefix(PrefixPart::Verbatim(name)) => PathView {
            text: folded_text(part),
            parts: seq![
                Part::Prefix(PrefixPart::Verbatim(folded_bytes(Platform::Windows, name))),
            ],
        },
        _ => wide::pushed(out, folded_text(part)),
    }
}

/// The path the folded spellings of `parts` make, put together.
pub open spec fn folded_path(parts: Seq<Part>) -> PathView
    decreases parts.len(),
{
    if parts.len() == 0 {
        PathView { text: seq![], parts: seq![] }
    } else {
        folded_step(folded_path(parts.drop_last()), parts.last())
    }
}

/// The key the guards compare a path with these components by.
pub open spec fn key(platform: Platform, parts: Seq<Part>) -> PathView {
    match platform {
        Platform::Linux => unix_key(parts, false),
        Platform::MacOs => unix_key(parts, true),
        Platform::Windows => folded_path(wide_normal(parts)),
    }
}

/// `path` is `base` or inside it, as the guards compare them.
pub open spec fn is_within(platform: Platform, path: Seq<Part>, base: Seq<Part>) -> bool {
    path::inside(key(platform, path).parts, key(platform, base).parts)
}

/// The name `bytes` without regard to case, as bytes.
pub fn fold_bytes(platform: Platform, bytes: &[u8]) -> (r: Vec<u8>)
    ensures
        r@ == folded_bytes(platform, bytes@),
{
    let shown = path::display_bytes(platform, bytes);
    let lower = text::lower(shown.as_str());
    vstd::slice::slice_to_vec(lower.as_str().as_bytes())
}

/// A component of a Unix path called `name`.
fn named(name: &str) -> (r: Component)
    ensures
        r@ == Part::Name(vstd::utf8::encode_utf8(name@)),
{
    Component::Normal(vstd::slice::slice_to_vec(name.as_bytes()))
}

/// `parts`, in which case is folded, as named from `/`.
fn leave_data_volume(parts: Vec<Component>) -> (r: Vec<Component>)
    ensures
        r.deep_view() == without_data_volume(parts.deep_view()),
{
    let data: Vec<Component> = vec![
        Component::RootDir,
        named("system"),
        named("volumes"),
        named("data"),
    ];
    assert(data.deep_view() =~= data_volume());
    let ghost whole = without_data_volume(parts.deep_view());
    let mut here = parts;
    loop
        invariant_except_break
            data@.len() == 4,
            data.deep_view() == data_volume(),
            without_data_volume(here.deep_view()) == whole,
        ensures
            here.deep_view() == whole,
        decreases here@.len(),
    {
        let n: usize = here.len();
        assert(here.deep_view().len() == n);
        if n <= 4 {
            break;
        }
        let head = vstd::slice::slice_subrange(here.as_slice(), 0, 4);
        assert(head.deep_view() =~= here.deep_view().take(4));
        if !path::same_parts(head, data.as_slice()) {
            break;
        }
        let mut tail = path::copy_parts(vstd::slice::slice_subrange(here.as_slice(), 4, n));
        let ghost below = tail.deep_view();
        assert(below =~= here.deep_view().skip(4));
        assert(below.len() == tail@.len());
        let mut next: Vec<Component> = Vec::new();
        next.push(Component::RootDir);
        next.append(&mut tail);
        assert(next.deep_view() =~= seq![Part::Root] + below);
        here = next;
    }
    here
}

/// The key of a Unix path, on macOS or elsewhere.
pub fn guard_key_for(path: &PathBuf, macos: bool) -> (r: PathBuf)
    ensures
        r@ == unix_key(path@.parts, macos),
{
    let clean = normalize(Platform::Linux, path);
    if !macos {
        return PathBuf::build(Platform::Linux, clean.parts);
    }
    let ghost all = clean@.parts;
    let mut parts: Vec<Component> = Vec::new();
    let mut i: usize = 0;
    while i < clean.parts.len()
        invariant
            i <= clean.parts@.len(),
            parts@.len() == i,
            forall|j: int|
                0 <= j < i ==> (#[trigger] parts@[j])@ == folded_name(clean.parts@[j]@),
        decreases clean.parts@.len() - i,
    {
        let part = match &clean.parts[i] {
            Component::Normal(name) => Component::Normal(
                fold_bytes(Platform::MacOs, name.as_slice()),
            ),
            other => other.clone(),
        };
        parts.push(part);
        i += 1;
    }
    assert(parts.deep_view() =~= folded_names(all));
    PathBuf::build(Platform::Linux, leave_data_volume(parts))
}

/// How a component is spelled in the form Windows would treat as equal.
pub fn fold_text(part: &Component) -> (r: Vec<u8>)
    ensures
        r@ == folded_text(part@),
{
    match part {
        Component::Prefix(prefix) => match prefix {
            Prefix::Disk(letter) | Prefix::VerbatimDisk(letter) => {
                let lower: u8 = if 65 <= *letter && *letter <= 90 {
                    *letter + 32
                } else {
                    *letter
                };
                let out: Vec<u8> = vec![lower, 58];
                assert(out@ =~= folded_text(part@));
                out
            },
            Prefix::Unc(server, share) | Prefix::VerbatimUnc(server, share) => {
                let mut out: Vec<u8> = vec![92, 92];
                let server = fold_bytes(Platform::Windows, server.as_slice());
                let share = fold_bytes(Platform::Windows, share.as_slice());
                path::push_bytes(&mut out, server.as_slice());
                out.push(92);
                path::push_bytes(&mut out, share.as_slice());
                assert(out@ =~= folded_text(part@));
                out
            },
            Prefix::Verbatim(name) => {
                let mut out: Vec<u8> = vec![92, 92, 63, 92];
                let name = fold_bytes(Platform::Windows, name.as_slice());
                path::push_bytes(&mut out, name.as_slice());
                assert(out@ =~= folded_text(part@));
                out
            },
            Prefix::DeviceNs(name) => {
                let mut out: Vec<u8> = vec![92, 92, 46, 92];
                let name = fold_bytes(Platform::Windows, name.as_slice());
                path::push_bytes(&mut out, name.as_slice());
                assert(out@ =~= folded_text(part@));
                out
            },
        },
        Component::Normal(name) => fold_bytes(Platform::Windows, name.as_slice()),
        other => other.spelled(92),
    }
}

/// How the components of both are spelled in the form Windows would treat as
/// equal is the same.
pub fn same_folded(left: &[Component], right: &[Component]) -> (r: bool)
    ensures
        r == (folded_texts(left.deep_view()) == folded_texts(right.deep_view())),
{
    let ghost a = folded_texts(left.deep_view());
    let ghost b = folded_texts(right.deep_view());
    assert(a.len() == left.len() && b.len() == right.len());
    if left.len() != right.len() {
        return false;
    }
    let mut i: usize = 0;
    while i < left.len()
        invariant
            i <= left@.len(),
            left@.len() == right@.len(),
            a == folded_texts(left.deep_view()),
            b == folded_texts(right.deep_view()),
            a.len() == left@.len(),
            b.len() == right@.len(),
            forall|k: int| 0 <= k < i ==> #[trigger] a[k] == b[k],
        decreases left@.len() - i,
    {
        assert(a[i as int] == folded_text(left@[i as int]@));
        assert(b[i as int] == folded_text(right@[i as int]@));
        if !text::same_units(fold_text(&left[i]).as_slice(), fold_text(&right[i]).as_slice()) {
            return false;
        }
        i += 1;
    }
    assert(a =~= b);
    true
}

/// `path` in the one spelling the guards compare on Windows.
pub fn windows_key(path: &PathBuf) -> (r: PathBuf)
    ensures
        r@ == folded_path(path@.parts),
{
    let ghost all = path@.parts;
    let mut out = PathBuf { text: Vec::new(), parts: Vec::new() };
    let mut i: usize = 0;
    assert(out@.parts =~= Seq::<Part>::empty());
    assert(out@ == folded_path(all.take(0)));
    while i < path.parts.len()
        invariant
            i <= path.parts@.len(),
            all == path@.parts,
            out@ == folded_path(all.take(i as int)),
        decreases path.parts@.len() - i,
    {
        proof {
            assert(all.take(i + 1).drop_last() =~= all.take(i as int));
            assert(all.take(i + 1).last() == path.parts@[i as int]@);
        }
        let text = fold_text(&path.parts[i]);
        match &path.parts[i] {
            Component::Prefix(Prefix::Verbatim(name)) => {
                let name = fold_bytes(Platform::Windows, name.as_slice());
                let ghost view = name@;
                let parts: Vec<Component> = vec![Component::Prefix(Prefix::Verbatim(name))];
                assert(parts.deep_view() =~= seq![Part::Prefix(PrefixPart::Verbatim(view))]);
                out = PathBuf { text, parts };
            },
            _ => {
                out = wide::push(&out, text.as_slice());
            },
        }
        i += 1;
    }
    assert(all.take(all.len() as int) =~= all);
    out
}

/// The key the guards compare `path` by.
pub fn guard_key(platform: Platform, path: &PathBuf) -> (r: PathBuf)
    ensures
        r@ == key(platform, path@.parts),
{
    proof {
        lemma_clean_parts(platform, path@);
    }
    match platform {
        Platform::Windows => windows_key(&normalize(platform, path)),
        Platform::MacOs => guard_key_for(path, true),
        Platform::Linux => guard_key_for(path, false),
    }
}

/// `path` is `base` or inside it, by whole components, as the guards
/// compare them.
pub fn within(platform: Platform, path: &PathBuf, base: &PathBuf) -> (r: bool)
    ensures
        r == is_within(platform, path@.parts, base@.parts),
{
    guard_key(platform, path).starts_with(&guard_key(platform, base))
}

/// The Data volume as the system spells it has the key [`data_volume`].
pub proof fn lemma_data_volume()
    ensures
        folded_names(text_path(MACOS_DATA_VOLUME@).parts) == data_volume(),
        key(Platform::MacOs, text_path(MACOS_DATA_VOLUME@).parts).parts == data_volume(),
{
    reveal_strlit("/System/Volumes/Data");
    reveal_strlit("System");
    reveal_strlit("Volumes");
    reveal_strlit("Data");
    reveal_strlit("system");
    reveal_strlit("volumes");
    reveal_strlit("data");
    let spelled = seq![
        Part::Root,
        Part::Name(vstd::utf8::encode_utf8("System"@)),
        Part::Name(vstd::utf8::encode_utf8("Volumes"@)),
        Part::Name(vstd::utf8::encode_utf8("Data"@)),
    ];
    lemma_folded_ascii("System"@);
    lemma_folded_ascii("Volumes"@);
    lemma_folded_ascii("Data"@);
    assert(text::ascii_lowercase("System"@) =~= "system"@);
    assert(text::ascii_lowercase("Volumes"@) =~= "volumes"@);
    assert(text::ascii_lowercase("Data"@) =~= "data"@);
    assert(folded_names(spelled) =~= data_volume());
    lemma_ascii_name("System"@);
    lemma_ascii_name("Volumes"@);
    lemma_ascii_name("Data"@);
    path::lemma_unix_round_trip(spelled);
    let a = vstd::utf8::encode_utf8("System"@);
    let b = vstd::utf8::encode_utf8("Volumes"@);
    let c = vstd::utf8::encode_utf8("Data"@);
    let sep = seq![47u8];
    assert(spelled.drop_last() =~= spelled.take(3));
    assert(spelled.take(3).drop_last() =~= spelled.take(2));
    assert(spelled.take(2).drop_last() =~= spelled.take(1));
    assert(spelled.take(1).drop_last() =~= Seq::<Part>::empty());
    assert(path::render(47, Seq::<Part>::empty()) =~= Seq::<u8>::empty());
    assert(path::render(47, spelled.take(1)) =~= sep);
    assert(path::render(47, spelled.take(2)) =~= sep + a);
    assert(path::render(47, spelled.take(3)) =~= sep + a + sep + b);
    assert(path::render(47, spelled) =~= sep + a + sep + b + sep + c);
    let whole = vstd::utf8::encode_utf8("/System/Volumes/Data"@);
    vstd::utf8::is_ascii_chars_encode_utf8("/System/Volumes/Data"@);
    vstd::utf8::is_ascii_chars_encode_utf8("System"@);
    vstd::utf8::is_ascii_chars_encode_utf8("Volumes"@);
    vstd::utf8::is_ascii_chars_encode_utf8("Data"@);
    let made = sep + a + sep + b + sep + c;
    assert(made.len() == whole.len());
    assert forall|i: int| 0 <= i < made.len() implies made[i] == #[trigger] whole[i] by {
        let ch = "/System/Volumes/Data"@[i];
        assert(ch as u8 == whole[i]);
        if 1 <= i < 7 {
            assert("System"@[i - 1] == ch);
            assert(made[i] == a[i - 1]);
        } else if 8 <= i < 15 {
            assert("Volumes"@[i - 8] == ch);
            assert(made[i] == b[i - 8]);
        } else if 16 <= i {
            assert("Data"@[i - 16] == ch);
            assert(made[i] == c[i - 16]);
        } else {
            assert(ch == '/');
            assert(made[i] == 47);
        }
    }
    assert(made =~= whole);
    assert(text_path(MACOS_DATA_VOLUME@).parts == spelled);
    lemma_normal_fixed(spelled);
}

proof fn lemma_ascii_name(s: Seq<char>)
    requires
        vstd::utf8::is_ascii_chars(s),
        s.len() > 2,
        forall|i: int| 0 <= i < s.len() ==> #[trigger] s[i] != '/',
    ensures
        path::real_name(vstd::utf8::encode_utf8(s)),
{
    vstd::utf8::is_ascii_chars_encode_utf8(s);
    let bytes = vstd::utf8::encode_utf8(s);
    assert forall|i: int| 0 <= i < bytes.len() implies bytes[i] != 47 by {
        assert(bytes[i] == s[i] as u8);
        assert(s[i] != '/');
    }
}

/// Folding ASCII text makes its capitals small.
pub proof fn lemma_folded_ascii(s: Seq<char>)
    requires
        vstd::utf8::is_ascii_chars(s),
    ensures
        folded_bytes(Platform::MacOs, vstd::utf8::encode_utf8(s)) == vstd::utf8::encode_utf8(
            text::ascii_lowercase(s),
        ),
{
    vstd::utf8::encode_utf8_valid_utf8(s);
    vstd::utf8::encode_utf8_decode_utf8(s);
}

/// On macOS what is named from the Data volume, in whatever case that is
/// spelled, has the key it has when it is named from `/`.
pub proof fn lemma_data_volume_spellings(volume: Seq<Part>, rest: Seq<Part>)
    requires
        folded_names(volume) == data_volume(),
        rest.len() > 0,
        forall|i: int| 0 <= i < rest.len() ==> (#[trigger] rest[i]) is Name,
    ensures
        key(Platform::MacOs, volume + rest) == key(Platform::MacOs, seq![Part::Root] + rest),
{
    let long = volume + rest;
    let short = seq![Part::Root] + rest;
    assert(volume.len() == folded_names(volume).len());
    assert forall|i: int| 0 <= i < volume.len() implies (#[trigger] volume[i]) is Root
        || volume[i] is Name by {
        assert(folded_name(volume[i]) == data_volume()[i]);
    }
    assert forall|i: int| 0 <= i < long.len() implies (#[trigger] long[i]) !is Cur && (long[i]
        is Parent ==> i == 0 || long[i - 1] is Parent) by {
        if i < volume.len() {
            assert(long[i] == volume[i]);
        } else {
            assert(long[i] == rest[i - volume.len()]);
        }
    }
    assert forall|i: int| 0 <= i < short.len() implies (#[trigger] short[i]) !is Cur && (short[i]
        is Parent ==> i == 0 || short[i - 1] is Parent) by {
        if i > 0 {
            assert(short[i] == rest[i - 1]);
        }
    }
    lemma_normal_fixed(long);
    lemma_normal_fixed(short);
    let folded = folded_names(long);
    assert(folded =~= data_volume() + folded_names(rest));
    assert(folded.take(4) =~= data_volume());
    assert(seq![Part::Root] + folded.skip(4) =~= folded_names(short));
}

/// A path and its normalized form have the same key; on Windows, where none
/// of the names left is read as something else, and nothing is left to
/// resolve.
pub proof fn lemma_key_of_normal(platform: Platform, parts: Seq<Part>)
    requires
        platform is Windows ==> wide::is_plain(wide_normal(parts)) && is_normal(wide_normal(parts)),
    ensures
        key(platform, normal_on(platform, parts)) == key(platform, parts),
{
    if platform is Windows {
        let once = wide_normal(parts);
        let path = PathView { text: seq![], parts: once };
        lemma_wide_plain(path, once);
        lemma_normal_fixed(once);
        lemma_wide_clean_parts(path, once);
    } else {
        lemma_normal_idempotent(parts);
    }
}

/// Everything is within itself, and within is transitive.
pub proof fn lemma_within_order(platform: Platform, a: Seq<Part>, b: Seq<Part>, c: Seq<Part>)
    ensures
        is_within(platform, a, a),
        is_within(platform, a, b) && is_within(platform, b, c) ==> is_within(platform, a, c),
{
    let x = key(platform, a).parts;
    assert(x.take(x.len() as int) =~= x);
    if is_within(platform, a, b) && is_within(platform, b, c) {
        path::lemma_inside_transitive(x, key(platform, b).parts, key(platform, c).parts);
    }
}

} // verus!
