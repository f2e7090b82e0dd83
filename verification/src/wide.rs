//! Windows paths that grow, and what is read in a text that is pushed onto
//! one.
//!
//! A text that is pushed is read as a path of its own. A drive or a share in
//! front of it makes it one that replaces what was there, and a separator in
//! front one that starts again behind the prefix. Only in a verbatim path is
//! a slash part of a name, so a name of one may be read as several.

use vstd::prelude::*;

use crate::path;
use crate::path::{Component, Part, PathBuf, PathView, Prefix, PrefixPart};
use crate::platform::Platform;
use crate::text;

verus! {

// ---------------------------------------------------------------------
// Reading.
// ---------------------------------------------------------------------

/// `text` with slashes for its separators.
pub open spec fn slashed(text: Seq<u8>) -> Seq<u8> {
    text.map_values(
        |byte: u8|
            if byte == 92 {
                47u8
            } else {
                byte
            },
    )
}

/// `text` starts with a drive: a letter and a colon.
pub open spec fn drive_led(text: Seq<u8>) -> bool {
    &&& text.len() >= 2
    &&& 65 <= text[0] <= 90 || 97 <= text[0] <= 122
    &&& text[1] == 58
}

/// The drive a letter stands for.
pub open spec fn drive_of(letter: u8) -> u8 {
    if 97 <= letter <= 122 {
        (letter - 32) as u8
    } else {
        letter
    }
}

/// The pieces of a text that starts with two separators name a share, or a
/// device.
pub open spec fn share_led(all: Seq<Seq<u8>>) -> bool {
    &&& all.len() >= 4
    &&& all[0].len() == 0
    &&& all[1].len() == 0
    &&& all[2] == seq![46u8] || (all[2].len() > 0 && all[3].len() > 0)
}

/// The share or device these pieces name.
pub open spec fn share_of(all: Seq<Seq<u8>>) -> PrefixPart {
    if all[2] == seq![46u8] {
        PrefixPart::DeviceNs(all[3])
    } else {
        PrefixPart::Unc(all[2], all[3])
    }
}

/// The components Windows reads in `text`, which is not verbatim. A share or
/// a device has a root, spelled or not.
pub open spec fn read_parts(text: Seq<u8>) -> Seq<Part> {
    let flat = slashed(text);
    let all = text::pieces(flat, 47);
    if drive_led(flat) {
        seq![Part::Prefix(PrefixPart::Disk(drive_of(flat[0])))] + path::unix_parts(flat.skip(2))
    } else if share_led(all) {
        seq![Part::Prefix(share_of(all)), Part::Root] + path::piece_parts(all.skip(4), true)
    } else {
        path::unix_parts(flat)
    }
}

/// `text` with slashes for its separators.
fn slash(text: &[u8]) -> (r: Vec<u8>)
    ensures
        r@ == slashed(text@),
{
    let mut out: Vec<u8> = Vec::new();
    let mut i: usize = 0;
    while i < text.len()
        invariant
            i <= text@.len(),
            out@ == slashed(text@.take(i as int)),
        decreases text@.len() - i,
    {
        out.push(
            if text[i] == 92 {
                47
            } else {
                text[i]
            },
        );
        assert(out@ =~= slashed(text@.take(i + 1)));
        i += 1;
    }
    assert(text@.take(text@.len() as int) =~= text@);
    out
}

/// The components Windows reads in `text`, which is not verbatim.
pub fn read(text: &[u8]) -> (r: Vec<Component>)
    ensures
        r.deep_view() == read_parts(text@),
{
    let flat = slash(text);
    let n: usize = flat.len();
    if n >= 2 && flat[1] == 58 && ((65 <= flat[0] && flat[0] <= 90) || (97 <= flat[0] && flat[0]
        <= 122)) {
        let letter: u8 = if flat[0] >= 97 {
            flat[0] - 32
        } else {
            flat[0]
        };
        let tail = vstd::slice::slice_to_vec(
            vstd::slice::slice_subrange(flat.as_slice(), 2, n),
        );
        assert(tail@ =~= flat@.skip(2));
        let mut parts: Vec<Component> = vec![Component::Prefix(Prefix::Disk(letter))];
        let ghost lead = parts.deep_view();
        let mut rest = PathBuf::unix(tail).parts;
        let ghost more = rest.deep_view();
        parts.append(&mut rest);
        assert(lead =~= seq![Part::Prefix(PrefixPart::Disk(letter))]);
        assert(parts.deep_view() =~= lead + more);
        return parts;
    }
    let all = text::split_all(flat.as_slice(), 47u8);
    let ghost whole = text::pieces(flat@, 47);
    if all.len() >= 4 {
        assert(all@[0]@ == whole[0] && all@[1]@ == whole[1]);
        assert(all@[2]@ == whole[2] && all@[3]@ == whole[3]);
        let device: bool = all[2].len() == 1 && all[2][0] == 46;
        assert(device == (whole[2] =~= seq![46u8]));
        if all[0].len() == 0 && all[1].len() == 0 && (device || (all[2].len() > 0 && all[3].len()
            > 0)) {
            let prefix = if device {
                Prefix::DeviceNs(path::copy_bytes(&all[3]))
            } else {
                Prefix::Unc(path::copy_bytes(&all[2]), path::copy_bytes(&all[3]))
            };
            let mut parts: Vec<Component> = vec![Component::Prefix(prefix), Component::RootDir];
            let ghost lead = parts.deep_view();
            assert(lead =~= seq![Part::Prefix(share_of(whole)), Part::Root]);
            let tail = vstd::slice::slice_subrange(all.as_slice(), 4, all.len());
            let mut rest = path::read_pieces(tail, true, Ghost(whole.skip(4)));
            let ghost more = rest.deep_view();
            parts.append(&mut rest);
            assert(parts.deep_view() =~= lead + more);
            return parts;
        }
    }
    PathBuf::unix(flat).parts
}

// ---------------------------------------------------------------------
// Pushing.
// ---------------------------------------------------------------------

/// What `part` makes of the components of a verbatim path that it is pushed
/// onto: dots are resolved, and a root starts again behind the prefix.
pub open spec fn resolved_step(out: Seq<Part>, part: Part) -> Seq<Part> {
    match part {
        Part::Root => out.take(1).push(Part::Root),
        Part::Cur => out,
        Part::Parent => if out.last() is Name {
            out.drop_last()
        } else {
            out
        },
        _ => out.push(part),
    }
}

/// The components of a verbatim path, with those of a text pushed onto it.
pub open spec fn resolved(base: Seq<Part>, more: Seq<Part>) -> Seq<Part>
    decreases more.len(),
{
    if more.len() == 0 {
        base
    } else {
        resolved_step(resolved(base, more.drop_last()), more.last())
    }
}

/// The components of a path with the components `base`, once `text` was
/// pushed onto it.
pub open spec fn pushed_parts(base: Seq<Part>, text: Seq<u8>) -> Seq<Part> {
    let more = read_parts(text);
    if more.len() > 0 && more[0] is Prefix {
        more
    } else if path::is_verbatim(base) && text.len() > 0 {
        resolved(base, more)
    } else if more.len() > 0 && more[0] is Root {
        if base.len() > 0 && base[0] is Prefix {
            seq![base[0]] + more
        } else {
            more
        }
    } else {
        path::appended(base, more)
    }
}

/// `base`, once `text` was pushed onto it. A verbatim path is spelled anew,
/// all but its prefix.
pub open spec fn pushed(base: PathView, text: Seq<u8>) -> PathView {
    let more = read_parts(text);
    let parts = pushed_parts(base.parts, text);
    PathView {
        text: if more.len() > 0 && more[0] is Prefix {
            text
        } else if path::is_verbatim(base.parts) && text.len() > 0 {
            path::respelled(Platform::Windows, base, parts).text
        } else if more.len() > 0 && more[0] is Root {
            if base.parts.len() > 0 && base.parts[0] is Prefix {
                path::prefix_as_spelled(base, base.parts[0]->Prefix_0) + text
            } else {
                text
            }
        } else {
            base.text + (if path::joins_with_gap(Platform::Windows, base) {
                seq![92u8]
            } else {
                seq![]
            }) + text
        },
        parts,
    }
}

/// The components of a verbatim path, with those of a text pushed onto it.
fn resolve(base: &[Component], more: &[Component]) -> (r: Vec<Component>)
    requires
        path::is_verbatim(base.deep_view()),
    ensures
        r.deep_view() == resolved(base.deep_view(), more.deep_view()),
{
    let ghost all = more.deep_view();
    let ghost start = base.deep_view();
    let mut out = path::copy_parts(base);
    let mut i: usize = 0;
    assert(all.len() == more.len() && start.len() == base.len());
    assert(all.take(0) =~= Seq::<Part>::empty());
    assert(out.deep_view().len() == out.len());
    assert(out.deep_view()[0] == out@[0]@);
    while i < more.len()
        invariant
            i <= more@.len(),
            all == more.deep_view(),
            start == base.deep_view(),
            out.deep_view() == resolved(start, all.take(i as int)),
            out@.len() > 0,
            out@[0]@ is Prefix,
        decreases more@.len() - i,
    {
        let ghost before = out.deep_view();
        let n: usize = out.len();
        proof {
            assert(all.take(i + 1).drop_last() =~= all.take(i as int));
            assert(all.take(i + 1).last() == more@[i as int]@);
            assert(before.len() == n);
            assert(before.last() == out@[n - 1]@);
        }
        match &more[i] {
            Component::RootDir => {
                let mut next = path::copy_parts(
                    vstd::slice::slice_subrange(out.as_slice(), 0, 1),
                );
                assert(next.deep_view() =~= before.take(1));
                let ghost first = next.deep_view();
                next.push(Component::RootDir);
                assert(next.deep_view() =~= first.push(Part::Root));
                assert(first[0] == before[0] && before[0] == out@[0]@);
                assert(next.deep_view()[0] == next@[0]@);
                out = next;
            },
            Component::CurDir => {},
            Component::ParentDir => {
                let named: bool = match &out[n - 1] {
                    Component::Normal(_) => true,
                    _ => false,
                };
                if named {
                    out.pop();
                    assert(out.deep_view() =~= before.drop_last());
                }
            },
            part => {
                out.push(part.clone());
                assert(out.deep_view() =~= before.push(part@));
            },
        }
        assert(out.deep_view() =~= resolved(start, all.take(i + 1)));
        i += 1;
    }
    assert(all.take(all.len() as int) =~= all);
    out
}

/// `base`, once `text` was pushed onto it.
pub fn push(base: &PathBuf, text: &[u8]) -> (r: PathBuf)
    ensures
        r@ == pushed(base@, text@),
{
    let more = read(text);
    let ghost parts = more.deep_view();
    assert(parts.len() == more.len());
    assert(more.len() > 0 ==> parts[0] == more@[0]@);
    let (prefixed, rooted): (bool, bool) = if more.len() == 0 {
        (false, false)
    } else {
        match &more[0] {
            Component::Prefix(_) => (true, false),
            Component::RootDir => (false, true),
            _ => (false, false),
        }
    };
    if prefixed {
        return PathBuf { text: vstd::slice::slice_to_vec(text), parts: more };
    }
    assert(base@.parts.len() == base.parts.len());
    assert(base.parts.len() > 0 ==> base@.parts[0] == base.parts@[0]@);
    if base.verbatim() && text.len() > 0 {
        let parts = resolve(base.parts.as_slice(), more.as_slice());
        return base.respell(Platform::Windows, parts);
    }
    if rooted {
        if base.parts.len() > 0 {
            if let Component::Prefix(prefix) = &base.parts[0] {
                let mut spelled = base.spelled_prefix(prefix);
                path::push_bytes(&mut spelled, text);
                let mut all: Vec<Component> = vec![base.parts[0].clone()];
                assert(all.deep_view() =~= seq![base@.parts[0]]);
                let mut more = more;
                all.append(&mut more);
                assert(all.deep_view() =~= seq![base@.parts[0]] + parts);
                return PathBuf { text: spelled, parts: all };
            }
        }
        return PathBuf { text: vstd::slice::slice_to_vec(text), parts: more };
    }
    let mut spelled = path::copy_bytes(&base.text);
    if base.wants_gap(Platform::Windows) {
        spelled.push(92);
    }
    path::push_bytes(&mut spelled, text);
    let ghost view = pushed(base@, text@);
    assert(spelled@ =~= view.text);
    PathBuf {
        text: spelled,
        parts: path::append_parts(base.parts.as_slice(), more.as_slice()),
    }
}

// ---------------------------------------------------------------------
// Paths that read as they are.
// ---------------------------------------------------------------------

/// A name that is read as itself when it is pushed.
pub open spec fn plain_name(name: Seq<u8>) -> bool {
    path::real_name(name) && !name.contains(92) && !drive_led(name)
}

/// The components of a Windows path, whose names are read as themselves: a
/// prefix only in front, a root only there or behind it, and one behind a
/// share or a device.
pub open spec fn is_plain(parts: Seq<Part>) -> bool {
    &&& forall|i: int|
        0 <= i < parts.len() ==> match #[trigger] parts[i] {
            Part::Prefix(_) => i == 0,
            Part::Root => i == 0 || (i == 1 && parts[0] is Prefix),
            Part::Cur | Part::Parent => true,
            Part::Name(name) => plain_name(name),
        }
    &&& parts.len() > 1 && has_share(parts) ==> parts[1] is Root
}

/// The path is on a share or a device.
pub open spec fn has_share(parts: Seq<Part>) -> bool {
    parts[0] matches Part::Prefix(PrefixPart::Unc(_, _)) || parts[0] matches Part::Prefix(
        PrefixPart::DeviceNs(_),
    )
}

/// What comes before the last component of such a path is such a path.
pub proof fn lemma_plain_front(parts: Seq<Part>)
    requires
        is_plain(parts),
        parts.len() > 0,
    ensures
        is_plain(parts.drop_last()),
{
    let front = parts.drop_last();
    assert forall|i: int| 0 <= i < front.len() implies match #[trigger] front[i] {
        Part::Prefix(_) => i == 0,
        Part::Root => i == 0 || (i == 1 && front[0] is Prefix),
        Part::Cur | Part::Parent => true,
        Part::Name(name) => plain_name(name),
    } by {
        assert(front[i] == parts[i]);
        assert(front[0] == parts[0]);
    }
    if front.len() > 1 {
        assert(front[0] == parts[0] && front[1] == parts[1]);
    }
}

/// Such a path with one more component, where that one may stand.
pub proof fn lemma_plain_push(parts: Seq<Part>, part: Part)
    requires
        is_plain(parts),
        match part {
            Part::Prefix(_) | Part::Cur => false,
            Part::Root => parts.len() == 0 || (parts.len() == 1 && parts[0] is Prefix),
            Part::Parent => true,
            Part::Name(name) => plain_name(name),
        },
        part !is Root ==> !(parts.len() == 1 && has_share(parts)),
    ensures
        is_plain(parts.push(part)),
{
    let all = parts.push(part);
    assert forall|i: int| 0 <= i < all.len() implies match #[trigger] all[i] {
        Part::Prefix(_) => i == 0,
        Part::Root => i == 0 || (i == 1 && all[0] is Prefix),
        Part::Cur | Part::Parent => true,
        Part::Name(name) => plain_name(name),
    } by {
        if i < parts.len() {
            assert(all[i] == parts[i]);
        }
        if parts.len() > 0 {
            assert(all[0] == parts[0]);
        }
    }
    if parts.len() > 0 {
        assert(all[0] == parts[0]);
        if parts.len() > 1 {
            assert(all[1] == parts[1]);
        }
    }
}

proof fn lemma_slashed_plain(text: Seq<u8>)
    requires
        !text.contains(92),
    ensures
        slashed(text) == text,
{
    assert forall|i: int| 0 <= i < text.len() implies slashed(text)[i] == text[i] by {
        assert(text.contains(text[i]));
    }
    assert(slashed(text) =~= text);
}

/// A plain name is read as that name.
pub proof fn lemma_read_plain(name: Seq<u8>)
    requires
        plain_name(name),
    ensures
        read_parts(name) == seq![Part::Name(name)],
{
    lemma_slashed_plain(name);
    text::lemma_pieces_step(name, Seq::<u8>::empty(), 47u8);
    path::lemma_read_name(name);
}

/// A separator alone is read as a root.
pub proof fn lemma_read_root()
    ensures
        read_parts(seq![92u8]) == seq![Part::Root],
{
    let flat = slashed(seq![92u8]);
    let none = Seq::<u8>::empty();
    assert(flat =~= seq![47u8]);
    assert(flat =~= none + seq![47u8] + none);
    text::lemma_pieces_step(none, none, 47u8);
    path::lemma_read_slash();
}

/// A root that is pushed onto a prefix, or onto nothing.
pub proof fn lemma_plain_root(path: PathView, parts: Seq<Part>)
    requires
        parts.len() <= 1,
        parts.len() == 1 ==> parts[0] is Prefix,
    ensures
        pushed(path::respelled(Platform::Windows, path, parts), seq![92u8]) == path::respelled(
            Platform::Windows,
            path,
            parts.push(Part::Root),
        ),
{
    let out = path::respelled(Platform::Windows, path, parts);
    let all = parts.push(Part::Root);
    let more = seq![Part::Root];
    lemma_read_root();
    assert(all.drop_last() =~= parts);
    assert(more.drop_last() =~= Seq::<Part>::empty());
    assert(more.last() == Part::Root);
    reveal_with_fuel(resolved, 2);
    path::lemma_respelled_lead(path, parts, all);
    if parts.len() == 0 {
        assert(path::render(92, parts) =~= Seq::<u8>::empty());
        assert(path::render(92, all) =~= seq![92u8]);
        assert(all =~= more);
    } else {
        let prefix = parts[0]->Prefix_0;
        let lead = path::prefix_text(prefix);
        assert(parts.drop_last() =~= Seq::<Part>::empty());
        assert(path::render(92, parts.drop_last()) =~= Seq::<u8>::empty());
        assert(path::render(92, parts) =~= lead);
        assert(path::render(92, all) =~= lead + seq![92u8]);
        assert((lead + seq![92u8]).skip(lead.len() as int) =~= seq![92u8]);
        assert(parts.take(1) =~= parts);
        assert(seq![parts[0]] + more =~= all);
        assert(all[0] == parts[0]);
    }
}

/// A plain name that is pushed onto a path is its last component.
pub proof fn lemma_plain_name(path: PathView, parts: Seq<Part>, name: Seq<u8>)
    requires
        is_plain(parts),
        forall|i: int| 0 <= i < parts.len() ==> (#[trigger] parts[i]) !is Cur,
        !(parts.len() == 1 && has_share(parts)),
        plain_name(name),
    ensures
        pushed(path::respelled(Platform::Windows, path, parts), name) == path::respelled(
            Platform::Windows,
            path,
            parts.push(Part::Name(name)),
        ),
{
    let out = path::respelled(Platform::Windows, path, parts);
    let part = Part::Name(name);
    let all = parts.push(part);
    let more = seq![part];
    lemma_read_plain(name);
    assert(all.drop_last() =~= parts);
    assert(more.drop_last() =~= Seq::<Part>::empty());
    assert(more.last() == part);
    reveal_with_fuel(resolved, 2);
    assert(parts + more =~= all);
    path::lemma_respelled_lead(path, parts, all);
    path::lemma_respelled_push(path, parts, part);
    if parts.len() > 0 {
        let last = parts[parts.len() - 1];
        assert(last == parts.last());
        if last is Prefix {
            assert(parts.len() == 1);
        } else {
            path::lemma_respelled_last(path, parts);
            if let Part::Name(before) = last {
                assert(before.contains(before.last()));
            }
        }
    }
}

} // verus!
