//! What holds of paths: how they are read, spelled, normalized and compared.

use vstd::prelude::*;

use crate::guards;
use crate::judge;
use crate::laws::guarding;
use crate::path;
use crate::path::{Component, Part, PathBuf, PathView, PrefixPart};
use crate::platform::Platform;
use crate::text;
use crate::wide;

verus! {

// ---------------------------------------------------------------------
// Reading and spelling.
// ---------------------------------------------------------------------

/// A Unix path is read name by name: what follows a slash is one more
/// component, but nothing and a dot are none, and two dots lead up; and a
/// path of one piece is what that piece is, a dot too.
pub proof fn lemma_read_by_name(text: Seq<u8>, name: Seq<u8>)
    requires
        text.len() > 0,
        path::real_name(name),
    ensures
        path::unix_parts(text + seq![47u8] + name) == path::unix_parts(text).push(
            Part::Name(name),
        ),
        path::unix_parts(text + seq![47u8]) == path::unix_parts(text),
        path::unix_parts(text + seq![47u8] + seq![46u8]) == path::unix_parts(text),
        path::unix_parts(text + seq![47u8] + seq![46u8, 46u8]) == path::unix_parts(text).push(
            Part::Parent,
        ),
        path::unix_parts(Seq::<u8>::empty()) == Seq::<Part>::empty(),
        path::unix_parts(seq![47u8]) == seq![Part::Root],
        path::unix_parts(name) == seq![Part::Name(name)],
        path::unix_parts(seq![46u8]) == seq![Part::Cur],
        path::unix_parts(seq![46u8, 46u8]) == seq![Part::Parent],
        path::unix_parts(seq![47u8] + name) == seq![Part::Root, Part::Name(name)],
{
    let none = Seq::<u8>::empty();
    lemma_read_after_slash(text, name);
    lemma_read_after_slash(text, none);
    assert(text + seq![47u8] + none =~= text + seq![47u8]);
    assert(path::unix_parts(text) + path::piece_part(none, false) =~= path::unix_parts(text));
    lemma_read_after_slash(text, seq![46u8]);
    assert(path::unix_parts(text) + path::piece_part(seq![46u8], false) =~= path::unix_parts(text));
    lemma_read_after_slash(text, seq![46u8, 46u8]);
    assert(seq![46u8, 46u8] != seq![46u8]) by {
        assert(seq![46u8, 46u8].len() != seq![46u8].len());
    }
    assert(path::unix_parts(text) + seq![Part::Parent] =~= path::unix_parts(text).push(
        Part::Parent,
    ));
    assert(path::unix_parts(text) + seq![Part::Name(name)] =~= path::unix_parts(text).push(
        Part::Name(name),
    ));
    lemma_read_alone(none);
    lemma_read_alone(name);
    lemma_read_alone(seq![46u8]);
    lemma_read_alone(seq![46u8, 46u8]);
    path::lemma_read_slash();
    // A slash in front.
    text::lemma_pieces_step(none, name, 47u8);
    assert(none + seq![47u8] + name =~= seq![47u8] + name);
    text::lemma_pieces_step(name, none, 47u8);
    let all = seq![none] + text::pieces(name, 47u8);
    assert(all =~= seq![none, name]);
    assert(all.drop_last() =~= seq![none]);
    assert(seq![none].drop_last() =~= Seq::<Seq<u8>>::empty());
    reveal_with_fuel(path::piece_parts, 3);
    assert(path::unix_parts(seq![47u8] + name) =~= seq![Part::Root, Part::Name(name)]);
}

proof fn lemma_read_after_slash(text: Seq<u8>, piece: Seq<u8>)
    requires
        text.len() > 0,
        !piece.contains(47),
    ensures
        path::unix_parts(text + seq![47u8] + piece) == path::unix_parts(text) + path::piece_part(
            piece,
            false,
        ),
{
    let none = Seq::<u8>::empty();
    let whole = text + seq![47u8] + piece;
    text::lemma_pieces_join(text, piece, 47u8);
    text::lemma_pieces_step(piece, none, 47u8);
    text::lemma_pieces_clean(text, 47u8);
    let before = text::pieces(text, 47u8);
    let all = text::pieces(whole, 47u8);
    assert(all =~= before.push(piece));
    assert(all.drop_last() =~= before);
    assert(path::rooted(whole) == path::rooted(text));
    let lead: Seq<Part> = if path::rooted(text) {
        seq![Part::Root]
    } else {
        seq![]
    };
    assert(lead + (path::piece_parts(before, path::rooted(text)) + path::piece_part(piece, false))
        =~= lead + path::piece_parts(before, path::rooted(text)) + path::piece_part(piece, false));
}

proof fn lemma_read_alone(piece: Seq<u8>)
    requires
        !piece.contains(47),
    ensures
        path::unix_parts(piece) == path::piece_part(piece, true),
{
    let none = Seq::<u8>::empty();
    text::lemma_pieces_step(piece, none, 47u8);
    let all = text::pieces(piece, 47u8);
    assert(all =~= seq![piece]);
    assert(all.drop_last() =~= Seq::<Seq<u8>>::empty());
    if piece.len() > 0 {
        assert(piece.contains(piece[0]));
    }
    reveal_with_fuel(path::piece_parts, 2);
    assert(path::unix_parts(piece) =~= path::piece_part(piece, true));
}

/// A path is spelled component by component: the root as the separator, and
/// each name after one, but for the first.
pub proof fn lemma_spelled_by_name(sep: u8, front: Seq<Part>, name: Seq<u8>)
    ensures
        path::render(sep, Seq::<Part>::empty()) == Seq::<u8>::empty(),
        path::render(sep, seq![Part::Root]) == seq![sep],
        path::render(sep, seq![Part::Name(name)]) == name,
        path::render(sep, seq![Part::Root, Part::Name(name)]) == seq![sep] + name,
        front.len() > 0 && (front.last() is Name || front.last() is Parent || front.last() is Cur)
            ==> path::render(sep, front.push(Part::Name(name))) == path::render(sep, front)
            + seq![sep] + name,
{
    reveal_with_fuel(path::render, 3);
    assert(seq![Part::Root].drop_last() =~= Seq::<Part>::empty());
    assert(path::render(sep, seq![Part::Root]) =~= seq![sep]);
    assert(seq![Part::Name(name)].drop_last() =~= Seq::<Part>::empty());
    assert(path::render(sep, seq![Part::Name(name)]) =~= name);
    assert(seq![Part::Root, Part::Name(name)].drop_last() =~= seq![Part::Root]);
    assert(path::render(sep, seq![Part::Root, Part::Name(name)]) =~= seq![sep] + name);
    assert(front.push(Part::Name(name)).drop_last() =~= front);
}

/// On Unix an entry of a directory is called by the directory's path, a
/// slash unless the path ends in one, and its own name.
pub proof fn lemma_entry_of(platform: Platform, base: PathView, name: Seq<u8>)
    requires
        !(platform is Windows),
    ensures
        ({
            let entry = path::joined(platform, base, seq![Part::Name(name)]);
            &&& entry.parts == base.parts.push(Part::Name(name))
            &&& base.text.len() > 0 && base.text.last() != 47 && !(base.parts.len() == 1
                && base.parts[0] is Prefix) ==> entry.text == base.text + seq![47u8] + name
            &&& base.text.len() == 0 || base.text.last() == 47 ==> entry.text == base.text + name
        }),
{
    let entry = path::joined(platform, base, seq![Part::Name(name)]);
    lemma_spelled_by_name(47, Seq::<Part>::empty(), name);
    assert(entry.parts =~= base.parts.push(Part::Name(name)));
    assert(base.text + Seq::<u8>::empty() + name =~= base.text + name);
}

// ---------------------------------------------------------------------
// Normalizing.
// ---------------------------------------------------------------------

proof fn lemma_normal_after(a: Seq<Part>, b: Seq<Part>, rest: Seq<Part>)
    requires
        guards::normal(a) == guards::normal(b),
    ensures
        guards::normal(a + rest) == guards::normal(b + rest),
    decreases rest.len(),
{
    if rest.len() == 0 {
        assert(a + rest =~= a);
        assert(b + rest =~= b);
    } else {
        lemma_normal_after(a, b, rest.drop_last());
        assert((a + rest).drop_last() =~= a + rest.drop_last());
        assert((b + rest).drop_last() =~= b + rest.drop_last());
    }
}

/// Normalizing drops every dot, takes back the name before two dots, and
/// does not go above the root; a path without dots stays as it is.
pub proof fn lemma_dots_resolved(front: Seq<Part>, name: Seq<u8>, rest: Seq<Part>)
    ensures
        guards::normal(front.push(Part::Cur) + rest) == guards::normal(front + rest),
        guards::normal(front.push(Part::Name(name)).push(Part::Parent) + rest) == guards::normal(
            front + rest,
        ),
        guards::normal(seq![Part::Root, Part::Parent] + rest) == guards::normal(
            seq![Part::Root] + rest,
        ),
        (forall|i: int| 0 <= i < front.len() ==> (#[trigger] front[i]) !is Cur && front[i] !is Parent)
            ==> guards::normal(front) == front,
{
    reveal_with_fuel(guards::normal, 3);
    assert(front.push(Part::Cur).drop_last() =~= front);
    lemma_normal_after(front.push(Part::Cur), front, rest);
    let named = front.push(Part::Name(name));
    assert(named.drop_last() =~= front);
    assert(named.push(Part::Parent).drop_last() =~= named);
    assert(guards::normal(named) == guards::normal(front).push(Part::Name(name)));
    assert(guards::normal(front).push(Part::Name(name)).drop_last() =~= guards::normal(front));
    lemma_normal_after(named.push(Part::Parent), front, rest);
    let up = seq![Part::Root, Part::Parent];
    assert(up.drop_last() =~= seq![Part::Root]);
    assert(seq![Part::Root].drop_last() =~= Seq::<Part>::empty());
    assert(guards::normal(seq![Part::Root]) =~= seq![Part::Root]);
    assert(guards::normal(up) == guards::normal(seq![Part::Root]));
    lemma_normal_after(up, seq![Part::Root], rest);
    if forall|i: int| 0 <= i < front.len() ==> (#[trigger] front[i]) !is Cur && front[i] !is Parent {
        guards::lemma_normal_fixed(front);
    }
}

/// A normalized Unix path has the normalized components, spelled in the
/// usual way; on Windows too where every name is read as itself.
pub proof fn lemma_normalized(platform: Platform, path: PathView)
    requires
        platform is Windows ==> wide::is_plain(path.parts),
    ensures
        guards::clean(platform, path).parts == guards::normal(path.parts),
        !(platform is Windows) ==> guards::clean(platform, path).text == path::render(
            47,
            guards::normal(path.parts),
        ),
{
    if platform is Windows {
        guards::lemma_plain_settles(path);
    }
}

// ---------------------------------------------------------------------
// Comparing.
// ---------------------------------------------------------------------

/// One path is within another, as the guards compare them, exactly where its
/// key begins with the key of the other.
pub proof fn lemma_within_by_key(platform: Platform, path: Seq<Part>, base: Seq<Part>)
    ensures
        guards::is_within(platform, path, base) <==> guards::key(platform, base).parts.is_prefix_of(
            guards::key(platform, path).parts,
        ),
{
    guarding::lemma_inside(guards::key(platform, path).parts, guards::key(platform, base).parts);
}

/// An absolute path without dots.
pub open spec fn is_absolute(parts: Seq<Part>) -> bool {
    &&& parts.len() > 0
    &&& parts[0] is Root
    &&& forall|i: int| 0 < i < parts.len() ==> (#[trigger] parts[i]) is Name
}

/// On Linux an absolute path without dots is its own key, so that two such
/// paths are the same place only where they are the same path, and one is
/// within another only where it begins with it.
pub proof fn lemma_linux_key(parts: Seq<Part>)
    requires
        is_absolute(parts),
    ensures
        guards::key(Platform::Linux, parts).parts == parts,
        guards::key(Platform::Linux, parts).text == path::render(47, parts),
{
    assert forall|i: int| 0 <= i < parts.len() implies (#[trigger] parts[i]) !is Cur && parts[i]
        !is Parent by {
        if i > 0 {
            assert(parts[i] is Name);
        }
    }
    guards::lemma_normal_fixed(parts);
}

/// The text of an ASCII name in small letters.
pub open spec fn small(s: Seq<char>) -> Seq<char> {
    Seq::new(
        s.len(),
        |i: int|
            if 'A' <= s[i] <= 'Z' {
                (s[i] as u8 + 32) as char
            } else {
                s[i]
            },
    )
}

/// Folding a name makes its ASCII capitals small letters and leaves the rest
/// of an ASCII name as it is, on macOS and on Windows.
pub proof fn lemma_folded_small(platform: Platform, s: Seq<char>)
    requires
        vstd::utf8::is_ascii_chars(s),
    ensures
        guards::folded_bytes(platform, vstd::utf8::encode_utf8(s)) == vstd::utf8::encode_utf8(
            small(s),
        ),
{
    path::lemma_displayed_text(platform, s);
    assert(text::ascii_lowercase(s) =~= small(s));
}

/// On macOS the key of an absolute path without dots that is not on the Data
/// volume has the names of the path, folded, one for one: two such paths are
/// the same place exactly where their names are the same without regard to
/// case.
pub proof fn lemma_macos_key(parts: Seq<Part>)
    requires
        is_absolute(parts),
        !(parts.len() > 4 && guards::folded_names(parts).take(4) == guards::data_volume()),
    ensures
        guards::key(Platform::MacOs, parts).parts.len() == parts.len(),
        guards::key(Platform::MacOs, parts).parts[0] is Root,
        forall|i: int|
            0 < i < parts.len() ==> #[trigger] guards::key(Platform::MacOs, parts).parts[i]
                == Part::Name(
                vstd::utf8::encode_utf8(text::lowered(text::shown(parts[i]->Name_0))),
            ),
        guards::key(Platform::MacOs, parts).text == path::render(
            47,
            guards::key(Platform::MacOs, parts).parts,
        ),
{
    assert forall|i: int| 0 <= i < parts.len() implies (#[trigger] parts[i]) !is Cur && parts[i]
        !is Parent by {
        if i > 0 {
            assert(parts[i] is Name);
        }
    }
    guards::lemma_normal_fixed(parts);
    let folded = guards::folded_names(parts);
    assert(folded.len() == parts.len());
    assert(guards::data_volume().len() == 4);
    assert(guards::key(Platform::MacOs, parts).parts == folded);
    assert forall|i: int| 0 < i < parts.len() implies #[trigger] folded[i] == Part::Name(
        vstd::utf8::encode_utf8(text::lowered(text::shown(parts[i]->Name_0))),
    ) by {
        assert(parts[i] is Name);
    }
}

/// The Data volume of macOS is at `/system/volumes/data`, in small letters.
pub proof fn lemma_data_volume_at()
    ensures
        guards::data_volume() == seq![
            Part::Root,
            Part::Name(vstd::utf8::encode_utf8("system"@)),
            Part::Name(vstd::utf8::encode_utf8("volumes"@)),
            Part::Name(vstd::utf8::encode_utf8("data"@)),
        ],
{
}

/// A drive and the names below it.
pub open spec fn on_drive(drive: PrefixPart, names: Seq<Seq<u8>>) -> Seq<Part> {
    seq![Part::Prefix(drive), Part::Root] + names.map_values(|name: Seq<u8>| Part::Name(name))
}

/// The letter of a drive as a capital.
pub open spec fn capital(letter: u8) -> u8 {
    if letter >= 97 {
        (letter - 32) as u8
    } else {
        letter
    }
}

proof fn lemma_folded_prefix(drive: PrefixPart, letter: u8)
    requires
        drive == PrefixPart::Disk(letter) || drive == PrefixPart::VerbatimDisk(letter),
        65 <= letter <= 90 || 97 <= letter <= 122,
    ensures
        guards::folded_path(seq![Part::Prefix(drive)]).parts == seq![
            Part::Prefix(PrefixPart::Disk(capital(letter))),
        ],
{
    let one = seq![Part::Prefix(drive)];
    let none = PathView { text: seq![], parts: seq![] };
    assert(one.drop_last() =~= Seq::<Part>::empty());
    assert(guards::folded_path(one.drop_last()) == none);
    let spelled = seq![guards::lower_byte(letter), 58u8];
    assert(guards::folded_text(Part::Prefix(drive)) =~= spelled);
    let flat = wide::slashed(spelled);
    assert(flat =~= spelled);
    assert(wide::drive_led(flat));
    assert(wide::drive_of(flat[0]) == capital(letter));
    assert(flat.skip(2) =~= Seq::<u8>::empty());
    lemma_read_alone(Seq::<u8>::empty());
    assert(wide::read_parts(spelled) =~= seq![Part::Prefix(PrefixPart::Disk(capital(letter)))]);
    assert(one.last() == Part::Prefix(drive));
    assert(guards::folded_path(one) == guards::folded_step(none, Part::Prefix(drive)));
}

proof fn lemma_folded_root(drive: PrefixPart, letter: u8)
    requires
        drive == PrefixPart::Disk(letter) || drive == PrefixPart::VerbatimDisk(letter),
        65 <= letter <= 90 || 97 <= letter <= 122,
    ensures
        guards::folded_path(seq![Part::Prefix(drive), Part::Root]).parts == seq![
            Part::Prefix(PrefixPart::Disk(capital(letter))),
            Part::Root,
        ],
{
    let one = seq![Part::Prefix(drive)];
    let two = seq![Part::Prefix(drive), Part::Root];
    lemma_folded_prefix(drive, letter);
    assert(two.drop_last() =~= one);
    let first = guards::folded_path(one);
    let root = seq![92u8];
    assert(guards::folded_text(Part::Root) =~= root);
    wide::lemma_read_root();
    assert(guards::folded_path(two) == guards::folded_step(first, Part::Root));
    assert(guards::folded_path(two).parts =~= seq![first.parts[0]] + seq![Part::Root]);
}

proof fn lemma_folded_next(front: Seq<Part>, name: Seq<u8>)
    requires
        wide::plain_name(guards::folded_bytes(Platform::Windows, name)),
        !path::is_verbatim(guards::folded_path(front).parts),
    ensures
        guards::folded_path(front.push(Part::Name(name))).parts == guards::folded_path(
            front,
        ).parts.push(Part::Name(guards::folded_bytes(Platform::Windows, name))),
{
    let all = front.push(Part::Name(name));
    assert(all.drop_last() =~= front);
    let out = guards::folded_path(front);
    let folded = guards::folded_bytes(Platform::Windows, name);
    wide::lemma_read_plain(folded);
    assert(guards::folded_path(all) == guards::folded_step(out, Part::Name(name)));
    assert(guards::folded_path(all).parts =~= out.parts + seq![Part::Name(folded)]);
}

proof fn lemma_folded_drive(drive: PrefixPart, letter: u8, names: Seq<Seq<u8>>)
    requires
        drive == PrefixPart::Disk(letter) || drive == PrefixPart::VerbatimDisk(letter),
        65 <= letter <= 90 || 97 <= letter <= 122,
        forall|i: int|
            0 <= i < names.len() ==> wide::plain_name(
                guards::folded_bytes(Platform::Windows, #[trigger] names[i]),
            ),
    ensures
        guards::folded_path(on_drive(drive, names)).parts == on_drive(
            PrefixPart::Disk(capital(letter)),
            names.map_values(|name: Seq<u8>| guards::folded_bytes(Platform::Windows, name)),
        ),
    decreases names.len(),
{
    let fold = |name: Seq<u8>| guards::folded_bytes(Platform::Windows, name);
    let parts = on_drive(drive, names);
    let wanted = on_drive(PrefixPart::Disk(capital(letter)), names.map_values(fold));
    if names.len() == 0 {
        lemma_folded_root(drive, letter);
        assert(parts =~= seq![Part::Prefix(drive), Part::Root]);
        assert(wanted =~= seq![Part::Prefix(PrefixPart::Disk(capital(letter))), Part::Root]);
    } else {
        let front = names.drop_last();
        let name = names.last();
        assert(name == names[names.len() - 1]);
        assert forall|i: int| 0 <= i < front.len() implies wide::plain_name(
            guards::folded_bytes(Platform::Windows, #[trigger] front[i]),
        ) by {
            assert(front[i] == names[i]);
        }
        lemma_folded_drive(drive, letter, front);
        let before = on_drive(PrefixPart::Disk(capital(letter)), front.map_values(fold));
        assert(before[0] == Part::Prefix(PrefixPart::Disk(capital(letter))));
        lemma_folded_next(on_drive(drive, front), name);
        assert(parts =~= on_drive(drive, front).push(Part::Name(name)));
        assert(wanted =~= before.push(Part::Name(fold(name))));
    }
}

/// On Windows the key of a path below a drive has the drive by its capital
/// letter, whichever way the drive is spelled, and the names of the path,
/// folded, one for one, where every name is read as itself.
pub proof fn lemma_windows_key(drive: PrefixPart, letter: u8, names: Seq<Seq<u8>>)
    requires
        drive == PrefixPart::Disk(letter) || drive == PrefixPart::VerbatimDisk(letter),
        65 <= letter <= 90 || 97 <= letter <= 122,
        forall|i: int|
            0 <= i < names.len() ==> wide::plain_name(#[trigger] names[i]) && wide::plain_name(
                guards::folded_bytes(Platform::Windows, names[i]),
            ),
    ensures
        ({
            let key = guards::key(Platform::Windows, on_drive(drive, names)).parts;
            &&& key.len() == names.len() + 2
            &&& key[0] == Part::Prefix(
                PrefixPart::Disk(capital(letter)),
            )
            &&& key[1] is Root
            &&& forall|i: int|
                0 <= i < names.len() ==> #[trigger] key[i + 2] == Part::Name(
                    vstd::utf8::encode_utf8(
                        text::lowered(path::displayed(Platform::Windows, names[i])),
                    ),
                )
        }),
{
    let parts = on_drive(drive, names);
    let path = PathView { text: seq![], parts };
    assert forall|i: int| 0 <= i < parts.len() implies match #[trigger] parts[i] {
        Part::Prefix(_) => i == 0,
        Part::Root => i == 0 || (i == 1 && parts[0] is Prefix),
        Part::Cur | Part::Parent => true,
        Part::Name(name) => wide::plain_name(name),
    } by {
        if i >= 2 {
            assert(parts[i] == Part::Name(names[i - 2]));
            assert(wide::plain_name(names[i - 2]));
        }
    }
    assert(wide::is_plain(parts));
    guards::lemma_plain_settles(path);
    guards::lemma_clean_parts(Platform::Windows, path);
    assert forall|i: int| 0 <= i < parts.len() implies (#[trigger] parts[i]) !is Cur && parts[i]
        !is Parent by {
        if i >= 2 {
            assert(parts[i] == Part::Name(names[i - 2]));
        }
    }
    guards::lemma_normal_fixed(parts);
    lemma_folded_drive(drive, letter, names);
}

// ---------------------------------------------------------------------
// Names Windows reads as other names.
// ---------------------------------------------------------------------

proof fn lemma_trimmed(s: Seq<char>)
    ensures
        ({
            let t = text::trimmed_end(s);
            &&& t.is_prefix_of(s)
            &&& t.len() > 0 ==> !text::is_white(t.last())
            &&& forall|i: int| t.len() <= i < s.len() ==> text::is_white(#[trigger] s[i])
        }),
    decreases s.len(),
{
    if s.len() > 0 && text::is_white(s.last()) {
        lemma_trimmed(s.drop_last());
        let t = text::trimmed_end(s);
        assert forall|i: int| t.len() <= i < s.len() implies text::is_white(#[trigger] s[i]) by {
            if i < s.len() - 1 {
                assert(s[i] == s.drop_last()[i]);
            }
        }
    }
}

/// `end` is where the name of a device ends in `name`: before the white
/// space in front of `dot`, which is its first dot, or its own end.
pub open spec fn device_ends(name: Seq<char>, dot: int, end: int) -> bool {
    &&& 0 <= end <= dot <= name.len()
    &&& dot < name.len() ==> name[dot] == '.'
    &&& forall|i: int| 0 <= i < dot ==> (#[trigger] name[i]) != '.'
    &&& forall|i: int| end <= i < dot ==> text::is_white(#[trigger] name[i])
    &&& end > 0 ==> !text::is_white(name[end - 1])
}

/// The name of a device, in small letters.
pub open spec fn names_device(s: Seq<char>) -> bool {
    ||| s == "con"@ || s == "prn"@ || s == "aux"@ || s == "nul"@
    ||| exists|port: char|
        ('1' <= port <= '9' || port == '\u{b9}' || port == '\u{b2}' || port == '\u{b3}') && (s
            == #[trigger] "com"@.push(port) || s == "lpt"@.push(port))
}

proof fn lemma_device(s: Seq<char>)
    ensures
        judge::is_device(s) <==> names_device(s),
{
    reveal_strlit("com");
    reveal_strlit("lpt");
    if s.len() == 4 {
        let port = s[3];
        if s.take(3) == "com"@ {
            assert(s =~= "com"@.push(port));
        }
        if s.take(3) == "lpt"@ {
            assert(s =~= "lpt"@.push(port));
            assert("com"@.push(port).len() == 4);
        }
    }
    if exists|port: char|
        ('1' <= port <= '9' || port == '\u{b9}' || port == '\u{b2}' || port == '\u{b3}') && (s
            == #[trigger] "com"@.push(port) || s == "lpt"@.push(port)) {
        let port = choose|port: char|
            ('1' <= port <= '9' || port == '\u{b9}' || port == '\u{b2}' || port == '\u{b3}') && (s
                == #[trigger] "com"@.push(port) || s == "lpt"@.push(port));
        assert(s[3] == port);
        assert("com"@.push(port).take(3) =~= "com"@);
        assert("lpt"@.push(port).take(3) =~= "lpt"@);
    }
}

/// A name is one Windows reads as another exactly where it ends in a dot or
/// a space, holds a colon, or is a device up to its first dot, in whatever
/// case and with whatever white space behind it.
pub proof fn lemma_misread_exactly(name: Seq<char>)
    ensures
        judge::misread(name) <==> {
            ||| name.len() > 0 && (name.last() == '.' || name.last() == ' ')
            ||| exists|i: int| 0 <= i < name.len() && #[trigger] name[i] == ':'
            ||| exists|dot: int, end: int|
                #[trigger] device_ends(name, dot, end) && names_device(
                    text::lowered(name.take(end)),
                )
        },
{
    let dot = text::first_of(name, '.') as int;
    text::lemma_first_of(name, '.');
    let front = name.take(dot);
    let stem = text::trimmed_end(front);
    lemma_trimmed(front);
    let end = stem.len() as int;
    assert(stem =~= name.take(end));
    lemma_device(text::lowered(stem));
    assert(device_ends(name, dot, end)) by {
        assert forall|i: int| end <= i < dot implies text::is_white(#[trigger] name[i]) by {
            assert(front[i] == name[i]);
        }
        if end > 0 {
            assert(stem.last() == name[end - 1]);
        }
    }
    assert forall|at: int, other: int| #[trigger] device_ends(name, at, other) implies other
        == end by {
        if at < dot {
            assert(name[at] == '.');
        }
        if dot < at {
            assert(name[dot] == '.');
        }
        if other < end {
            assert(text::is_white(name[end - 1]));
            assert(stem.last() == name[end - 1]);
        }
        if end < other {
            assert(front[other - 1] == name[other - 1]);
        }
    }
    assert(name.contains(':') <==> exists|i: int| 0 <= i < name.len() && #[trigger] name[i] == ':');
}

// ---------------------------------------------------------------------
// Windows.
// ---------------------------------------------------------------------

/// On Windows an entry of a directory, by a name that is read as itself, is
/// called by the directory's path, a backslash unless the path ends in a
/// separator or is a drive alone, and its own name.
pub proof fn lemma_windows_entry_of(base: PathView, name: Seq<u8>)
    requires
        wide::plain_name(name),
        !path::is_verbatim(base.parts),
    ensures
        ({
            let entry = path::joined(Platform::Windows, base, seq![Part::Name(name)]);
            let drive = base.parts.len() == 1 && (base.parts[0] matches Part::Prefix(
                PrefixPart::Disk(_),
            ));
            let ends = base.text.len() == 0 || base.text.last() == 47 || base.text.last() == 92;
            &&& entry.parts == base.parts.push(Part::Name(name))
            &&& !drive && !ends ==> entry.text == base.text + seq![92u8] + name
            &&& drive || ends ==> entry.text == base.text + name
        }),
{
    let entry = path::joined(Platform::Windows, base, seq![Part::Name(name)]);
    lemma_spelled_by_name(92, Seq::<Part>::empty(), name);
    wide::lemma_read_plain(name);
    assert(entry.parts =~= base.parts.push(Part::Name(name)));
    assert(base.text + Seq::<u8>::empty() + name =~= base.text + name);
}

/// The names, each with a backslash in front.
pub open spec fn backslashed(names: Seq<Seq<u8>>) -> Seq<u8>
    decreases names.len(),
{
    if names.len() == 0 {
        seq![]
    } else {
        backslashed(names.drop_last()) + seq![92u8] + names.last()
    }
}

proof fn lemma_backslashed(names: Seq<Seq<u8>>)
    requires
        forall|i: int| 0 <= i < names.len() ==> wide::plain_name(#[trigger] names[i]),
    ensures
        names.len() > 0 ==> path::unix_parts(wide::slashed(backslashed(names))) == seq![Part::Root]
            + names.map_values(|name: Seq<u8>| Part::Name(name)),
        names.len() > 0 ==> wide::slashed(backslashed(names)).len() > 0,
    decreases names.len(),
{
    if names.len() > 0 {
        let front = names.drop_last();
        let name = names.last();
        assert(name == names[names.len() - 1]);
        assert forall|i: int| 0 <= i < front.len() implies wide::plain_name(
            #[trigger] front[i],
        ) by {
            assert(front[i] == names[i]);
        }
        lemma_backslashed(front);
        let before = wide::slashed(backslashed(front));
        assert forall|i: int| 0 <= i < name.len() implies name[i] != 92 by {
            assert(name.contains(name[i]));
        }
        assert(wide::slashed(backslashed(names)) =~= before + seq![47u8] + name);
        let parts = names.map_values(|name: Seq<u8>| Part::Name(name));
        let fewer = front.map_values(|name: Seq<u8>| Part::Name(name));
        if front.len() == 0 {
            assert(before =~= Seq::<u8>::empty());
            assert(before + seq![47u8] + name =~= seq![47u8] + name);
            lemma_read_by_name(seq![47u8], name);
            assert(seq![Part::Root] + parts =~= seq![Part::Root, Part::Name(name)]);
        } else {
            lemma_read_by_name(before, name);
            assert(seq![Part::Root] + parts =~= (seq![Part::Root] + fewer).push(Part::Name(name)));
        }
    }
}

/// A path that starts with a drive is read as that drive, by its capital
/// letter, its root, and the names below it.
pub proof fn lemma_drive_read(letter: u8, names: Seq<Seq<u8>>)
    requires
        65 <= letter <= 90 || 97 <= letter <= 122,
        names.len() > 0,
        forall|i: int| 0 <= i < names.len() ==> wide::plain_name(#[trigger] names[i]),
    ensures
        wide::read_parts(seq![letter, 58u8] + backslashed(names)) == on_drive(
            PrefixPart::Disk(capital(letter)),
            names,
        ),
{
    lemma_backslashed(names);
    let text = seq![letter, 58u8] + backslashed(names);
    let flat = wide::slashed(text);
    assert(flat =~= seq![letter, 58u8] + wide::slashed(backslashed(names)));
    assert(flat.skip(2) =~= wide::slashed(backslashed(names)));
    assert(wide::drive_led(flat));
    assert(wide::drive_of(flat[0]) == capital(letter));
    assert(wide::read_parts(text) =~= on_drive(PrefixPart::Disk(capital(letter)), names));
}

// ---------------------------------------------------------------------
// Paths themselves.
// ---------------------------------------------------------------------

/// What a path says of itself and of another: whether they are the same,
/// whether it begins with the other and what is left then, its own name, the
/// path it is in, and how it is shown.
pub proof fn lemma_path_says(
    path: &PathBuf,
    other: &PathBuf,
    platform: Platform,
    yes: bool,
    rest: Option<Vec<Component>>,
    name: Option<&Vec<u8>>,
    parent: Option<PathBuf>,
    shown: String,
)
    ensures
        call_ensures(PathBuf::same, (path, other), yes) ==> (yes <==> path@.parts == other@.parts),
        call_ensures(PathBuf::starts_with, (path, other), yes) ==> (yes
            <==> other@.parts.is_prefix_of(path@.parts)),
        call_ensures(PathBuf::strip_prefix, (path, other), rest) ==> {
            &&& rest is Some <==> other@.parts.is_prefix_of(path@.parts)
            &&& rest matches Some(rest) ==> path@.parts == other@.parts + rest.deep_view()
        },
        call_ensures(PathBuf::file_name, (path,), name) ==> {
            &&& name is Some <==> path@.parts.len() > 0 && path@.parts.last() is Name
            &&& name matches Some(name) ==> path@.parts.last() == Part::Name(name@)
        },
        call_ensures(PathBuf::has_parent, (path,), yes) ==> (yes <==> path@.parts.len() > 0
            && path@.parts.last() !is Root && path@.parts.last() !is Prefix),
        call_ensures(PathBuf::parent, (path, platform), parent) ==> {
            &&& parent is Some <==> path@.parts.len() > 0 && path@.parts.last() !is Root
                && path@.parts.last() !is Prefix
            &&& parent matches Some(parent) ==> parent@.parts == path@.parts.drop_last()
        },
        call_ensures(PathBuf::display, (path, platform), shown) ==> shown@ == path::displayed(
            platform,
            path@.text,
        ),
        call_ensures(PathBuf::before, (path, other), yes) ==> yes == path::path_less(
            path@.parts,
            other@.parts,
        ),
{
    guarding::lemma_inside(path@.parts, other@.parts);
    if other@.parts.is_prefix_of(path@.parts) {
        let n = other@.parts.len() as int;
        assert(path@.parts =~= other@.parts + path@.parts.skip(n));
    }
}

/// A path is made of the text it is given; it is joined, normalized and
/// compared as is stated of its components.
pub proof fn lemma_path_made(
    text: Vec<u8>,
    words: &str,
    made: PathBuf,
    path: &PathBuf,
    other: &PathBuf,
    platform: Platform,
    name: &[u8],
    yes: bool,
)
    ensures
        call_ensures(PathBuf::unix, (text,), made) ==> made@.text == text@ && made@.parts
            == path::unix_parts(text@),
        call_ensures(PathBuf::of, (words,), made) ==> made@.text == vstd::utf8::encode_utf8(words@)
            && made@.parts == path::unix_parts(vstd::utf8::encode_utf8(words@)),
        guards::text_path(words@).text == vstd::utf8::encode_utf8(words@),
        guards::text_path(words@).parts == path::unix_parts(vstd::utf8::encode_utf8(words@)),
        call_ensures(PathBuf::join_name, (path, platform, name), made) ==> made@ == path::joined(
            platform,
            path@,
            seq![Part::Name(name@)],
        ),
        call_ensures(guards::normalize, (platform, path), made) ==> made@ == guards::clean(
            platform,
            path@,
        ),
        call_ensures(guards::guard_key, (platform, path), made) ==> made@ == guards::key(
            platform,
            path@.parts,
        ),
        call_ensures(guards::within, (platform, path, other), yes) ==> (yes <==> guards::key(
            platform,
            other@.parts,
        ).parts.is_prefix_of(guards::key(platform, path@.parts).parts)),
{
    lemma_within_by_key(platform, path@.parts, other@.parts);
}

/// What Windows treats as equal: names without regard to case; a drive and
/// a share by whichever of their two spellings; and nothing else is folded
/// into them.
pub proof fn lemma_folded_alike(name: Seq<u8>, server: Seq<u8>, share: Seq<u8>, letter: u8)
    ensures
        ({
            let fold = |bytes: Seq<u8>|
                vstd::utf8::encode_utf8(text::lowered(path::displayed(Platform::Windows, bytes)));
            let small: u8 = if 65 <= letter <= 90 {
                (letter + 32) as u8
            } else {
                letter
            };
            &&& guards::folded_text(Part::Name(name)) == fold(name)
            &&& guards::folded_text(Part::Root) == seq![92u8]
            &&& guards::folded_text(Part::Prefix(PrefixPart::Disk(letter))) == seq![small, 58u8]
            &&& guards::folded_text(Part::Prefix(PrefixPart::VerbatimDisk(letter))) == seq![
                small,
                58u8,
            ]
            &&& guards::folded_text(Part::Prefix(PrefixPart::Unc(server, share))) == seq![92u8, 92]
                + fold(server) + seq![92u8] + fold(share)
            &&& guards::folded_text(Part::Prefix(PrefixPart::VerbatimUnc(server, share))) == seq![
                92u8,
                92,
            ] + fold(server) + seq![92u8] + fold(share)
        }),
{
}

/// How a drive, a share and a device are spelled in front of a path.
pub proof fn lemma_prefix_spelled(letter: u8, server: Seq<u8>, share: Seq<u8>)
    requires
        share.len() > 0,
    ensures
        path::prefix_text(PrefixPart::Disk(letter)) == seq![letter, 58u8],
        path::prefix_text(PrefixPart::VerbatimDisk(letter)) == seq![
            92u8,
            92,
            63,
            92,
            letter,
            58,
        ],
        path::prefix_text(PrefixPart::Unc(server, share)) == seq![92u8, 92] + server + seq![92u8]
            + share,
        path::prefix_text(PrefixPart::DeviceNs(server)) == seq![92u8, 92, 46, 92] + server,
{
    assert(seq![92u8, 92] + server + (seq![92u8] + share) =~= seq![92u8, 92] + server + seq![92u8]
        + share);
}

/// On Unix a path is the same place whether or not dots in it are resolved:
/// a dot changes nothing, and two dots take back the name before them.
pub proof fn lemma_key_resolves(platform: Platform, front: Seq<Part>, name: Seq<u8>, rest: Seq<Part>)
    requires
        !(platform is Windows),
    ensures
        guards::key(platform, front.push(Part::Cur) + rest) == guards::key(platform, front + rest),
        guards::key(platform, front.push(Part::Name(name)).push(Part::Parent) + rest)
            == guards::key(platform, front + rest),
        guards::key(platform, seq![Part::Root, Part::Parent] + rest) == guards::key(
            platform,
            seq![Part::Root] + rest,
        ),
{
    lemma_dots_resolved(front, name, rest);
}

proof fn lemma_pieces_slashed(lead: Seq<u8>, names: Seq<Seq<u8>>)
    requires
        !lead.contains(47),
        forall|i: int| 0 <= i < names.len() ==> wide::plain_name(#[trigger] names[i]),
    ensures
        text::pieces(lead + wide::slashed(backslashed(names)), 47u8) == seq![lead] + names,
        path::piece_parts(names, true) == names.map_values(|name: Seq<u8>| Part::Name(name)),
    decreases names.len(),
{
    let whole = lead + wide::slashed(backslashed(names));
    text::lemma_pieces_step(lead, Seq::<u8>::empty(), 47u8);
    if names.len() == 0 {
        assert(whole =~= lead);
        assert(seq![lead] + names =~= seq![lead]);
        assert(path::piece_parts(names, true) =~= names.map_values(
            |name: Seq<u8>| Part::Name(name),
        ));
    } else {
        let front = names.drop_last();
        let name = names.last();
        assert(name == names[names.len() - 1]);
        assert forall|i: int| 0 <= i < front.len() implies wide::plain_name(
            #[trigger] front[i],
        ) by {
            assert(front[i] == names[i]);
        }
        lemma_pieces_slashed(lead, front);
        let before = lead + wide::slashed(backslashed(front));
        assert forall|i: int| 0 <= i < name.len() implies name[i] != 92 by {
            assert(name.contains(name[i]));
        }
        assert(whole =~= before + seq![47u8] + name);
        text::lemma_pieces_join(before, name, 47u8);
        text::lemma_pieces_step(name, Seq::<u8>::empty(), 47u8);
        assert(seq![lead] + names =~= (seq![lead] + front) + seq![name]);
        assert(path::piece_parts(names, true) =~= names.map_values(
            |name: Seq<u8>| Part::Name(name),
        ));
    }
}

/// A path that starts with two separators, a server and a share is read as
/// that share, its root, and the names below it.
pub proof fn lemma_share_read(server: Seq<u8>, share: Seq<u8>, names: Seq<Seq<u8>>)
    requires
        wide::plain_name(server),
        wide::plain_name(share),
        forall|i: int| 0 <= i < names.len() ==> wide::plain_name(#[trigger] names[i]),
    ensures
        wide::read_parts(
            seq![92u8, 92] + server + seq![92u8] + share + backslashed(names),
        ) == on_drive(PrefixPart::Unc(server, share), names),
{
    let none = Seq::<u8>::empty();
    let text = seq![92u8, 92] + server + seq![92u8] + share + backslashed(names);
    let flat = wide::slashed(text);
    let tail = share + wide::slashed(backslashed(names));
    assert forall|i: int| 0 <= i < server.len() implies server[i] != 92 by {
        assert(server.contains(server[i]));
    }
    assert forall|i: int| 0 <= i < share.len() implies share[i] != 92 by {
        assert(share.contains(share[i]));
    }
    let two = server + seq![47u8] + tail;
    let one = none + seq![47u8] + two;
    assert(flat =~= none + seq![47u8] + one);
    lemma_pieces_slashed(share, names);
    text::lemma_pieces_step(server, tail, 47u8);
    text::lemma_pieces_step(none, two, 47u8);
    text::lemma_pieces_step(none, one, 47u8);
    let all = text::pieces(flat, 47u8);
    assert(all =~= seq![none, none, server, share] + names);
    assert(all[2] == server && all[3] == share);
    assert(all.skip(4) =~= names);
    assert(flat[0] == 47);
    assert(wide::read_parts(text) =~= on_drive(PrefixPart::Unc(server, share), names));
}

} // verus!
