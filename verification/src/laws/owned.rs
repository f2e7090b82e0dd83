//! What holds of the trees the operating system owns.

use vstd::prelude::*;

use crate::guards;
use crate::laws::spelling;
use crate::path;
use crate::path::{Part, PathView, PrefixPart};
use crate::platform::Platform;
use crate::system;
use crate::system::{SystemTree, WindowsPlaces};

verus! {

/// The names that lead from the top of a Unix filesystem to each tree the
/// system owns.
pub open spec fn unix_trees() -> Seq<Seq<Seq<char>>> {
    seq![
        seq!["bin"@],
        seq!["boot"@],
        seq!["dev"@],
        seq!["etc"@],
        seq!["lib"@],
        seq!["lib64"@],
        seq!["lib32"@],
        seq!["libx32"@],
        seq!["nix"@, "store"@],
        seq!["gnu"@, "store"@],
        seq!["proc"@],
        seq!["run"@],
        seq!["sbin"@],
        seq!["sys"@],
        seq!["usr"@],
        seq!["var"@, "lib"@],
        seq!["efi"@],
        seq!["home"@, "linuxbrew"@, ".linuxbrew"@],
        seq!["System"@],
        seq!["Library"@],
        seq!["private"@],
        seq!["cores"@],
        seq!["opt"@, "homebrew"@],
        seq!["Network"@],
    ]
}

/// The components of an absolute path of these names.
pub open spec fn from_top(names: Seq<Seq<char>>) -> Seq<Part> {
    seq![Part::Root] + names.map_values(|name: Seq<char>| Part::Name(vstd::utf8::encode_utf8(name)))
}

/// An ASCII name that is a component of its own.
spec fn is_word(s: Seq<char>) -> bool {
    &&& s.len() > 2
    &&& vstd::utf8::is_ascii_chars(s)
    &&& !s.contains('/')
}

proof fn lemma_word(s: Seq<char>)
    requires
        is_word(s),
    ensures
        path::real_name(vstd::utf8::encode_utf8(s)),
{
    vstd::utf8::is_ascii_chars_encode_utf8(s);
    let bytes = vstd::utf8::encode_utf8(s);
    assert forall|i: int| 0 <= i < bytes.len() implies bytes[i] != 47 by {
        assert(bytes[i] == s[i] as u8);
        assert(s.contains(s[i]));
    }
}

proof fn lemma_one(tree: Seq<char>, a: Seq<char>)
    requires
        is_word(a),
        tree == seq!['/'] + a,
    ensures
        guards::text_path(tree).parts == from_top(seq![a]),
        vstd::utf8::is_ascii_chars(tree),
        vstd::utf8::encode_utf8(tree) == seq![47u8] + vstd::utf8::encode_utf8(a),
{
    lemma_word(a);
    lemma_ascii_join(seq!['/'], a);
    lemma_slash();
    spelling::lemma_read_by_name(seq![47u8], vstd::utf8::encode_utf8(a));
    assert(from_top(seq![a]) =~= seq![Part::Root, Part::Name(vstd::utf8::encode_utf8(a))]);
}

proof fn lemma_more(tree: Seq<char>, front: Seq<char>, names: Seq<Seq<char>>, b: Seq<char>)
    requires
        is_word(b),
        front.len() > 0,
        vstd::utf8::is_ascii_chars(front),
        guards::text_path(front).parts == from_top(names),
        tree == front + seq!['/'] + b,
    ensures
        guards::text_path(tree).parts == from_top(names.push(b)),
        vstd::utf8::is_ascii_chars(tree),
{
    lemma_word(b);
    lemma_slash();
    lemma_ascii_join(seq!['/'], b);
    assert(front + seq!['/'] + b =~= front + (seq!['/'] + b));
    lemma_ascii_join(front, seq!['/'] + b);
    let bytes = vstd::utf8::encode_utf8(front);
    vstd::utf8::is_ascii_chars_encode_utf8(front);
    assert(bytes.len() > 0);
    assert(vstd::utf8::encode_utf8(tree) =~= bytes + seq![47u8] + vstd::utf8::encode_utf8(b));
    spelling::lemma_read_by_name(bytes, vstd::utf8::encode_utf8(b));
    assert(from_top(names.push(b)) =~= from_top(names).push(
        Part::Name(vstd::utf8::encode_utf8(b)),
    ));
}

proof fn lemma_slash()
    ensures
        vstd::utf8::is_ascii_chars(seq!['/']),
        vstd::utf8::encode_utf8(seq!['/']) == seq![47u8],
{
    let slash = seq!['/'];
    assert(vstd::utf8::is_ascii_chars(slash));
    vstd::utf8::is_ascii_chars_encode_utf8(slash);
    assert(vstd::utf8::encode_utf8(slash) =~= seq![47u8]);
}

proof fn lemma_ascii_join(a: Seq<char>, b: Seq<char>)
    requires
        vstd::utf8::is_ascii_chars(a),
        vstd::utf8::is_ascii_chars(b),
    ensures
        vstd::utf8::is_ascii_chars(a + b),
        vstd::utf8::encode_utf8(a + b) == vstd::utf8::encode_utf8(a) + vstd::utf8::encode_utf8(b),
{
    let all = a + b;
    assert forall|i: int| 0 <= i < all.len() implies '\0' <= #[trigger] all[i] <= '\u{7f}' by {
        if i < a.len() {
            assert(all[i] == a[i]);
        } else {
            assert(all[i] == b[i - a.len()]);
        }
    }
    assert(vstd::utf8::is_ascii_chars(all));
    vstd::utf8::is_ascii_chars_encode_utf8(a);
    vstd::utf8::is_ascii_chars_encode_utf8(b);
    vstd::utf8::is_ascii_chars_encode_utf8(all);
    let x = vstd::utf8::encode_utf8(a);
    let y = vstd::utf8::encode_utf8(b);
    let z = vstd::utf8::encode_utf8(all);
    assert forall|i: int| 0 <= i < z.len() implies z[i] == (x + y)[i] by {
        if i < a.len() {
            assert(z[i] == all[i] as u8 && x[i] == a[i] as u8);
        } else {
            assert(z[i] == all[i] as u8 && y[i - a.len()] == b[i - a.len()] as u8);
        }
    }
    assert(z =~= x + y);
}

/// On Linux and macOS the system owns exactly these trees, in this order: a
/// path is in one of them exactly where it begins with those names.
pub proof fn lemma_unix_trees(platform: Platform, places: WindowsPlaces, i: int)
    requires
        !(platform is Windows),
        0 <= i < 24,
    ensures
        system::trees_of(platform, places).len() == 24,
        unix_trees().len() == 24,
        system::trees_of(platform, places)[i].parts == from_top(unix_trees()[i]),
{
    reveal_strlit("/bin");
    reveal_strlit("bin");
    reveal_strlit("/boot");
    reveal_strlit("boot");
    reveal_strlit("/dev");
    reveal_strlit("dev");
    reveal_strlit("/etc");
    reveal_strlit("etc");
    reveal_strlit("/lib");
    reveal_strlit("lib");
    reveal_strlit("/lib64");
    reveal_strlit("lib64");
    reveal_strlit("/lib32");
    reveal_strlit("lib32");
    reveal_strlit("/libx32");
    reveal_strlit("libx32");
    reveal_strlit("/nix/store");
    reveal_strlit("nix");
    reveal_strlit("store");
    reveal_strlit("/gnu/store");
    reveal_strlit("gnu");
    reveal_strlit("/proc");
    reveal_strlit("proc");
    reveal_strlit("/run");
    reveal_strlit("run");
    reveal_strlit("/sbin");
    reveal_strlit("sbin");
    reveal_strlit("/sys");
    reveal_strlit("sys");
    reveal_strlit("/usr");
    reveal_strlit("usr");
    reveal_strlit("/var/lib");
    reveal_strlit("var");
    reveal_strlit("/efi");
    reveal_strlit("efi");
    reveal_strlit("/home/linuxbrew/.linuxbrew");
    reveal_strlit("home");
    reveal_strlit("linuxbrew");
    reveal_strlit(".linuxbrew");
    reveal_strlit("/System");
    reveal_strlit("System");
    reveal_strlit("/Library");
    reveal_strlit("Library");
    reveal_strlit("/private");
    reveal_strlit("private");
    reveal_strlit("/cores");
    reveal_strlit("cores");
    reveal_strlit("/opt/homebrew");
    reveal_strlit("opt");
    reveal_strlit("homebrew");
    reveal_strlit("/Network");
    reveal_strlit("Network");
    let tree = system::unix_system_trees()[i];
    let names = unix_trees()[i];
    assert(system::trees_of(platform, places)[i] == guards::text_path(tree));
    let first = seq!['/'] + names[0];
    lemma_one(first, names[0]);
    if names.len() == 1 {
        assert(tree =~= first);
        assert(names =~= seq![names[0]]);
    } else {
        let second = first + seq!['/'] + names[1];
        lemma_more(second, first, seq![names[0]], names[1]);
        if names.len() == 2 {
            assert(tree =~= second);
            assert(names =~= seq![names[0]].push(names[1]));
        } else {
            let third = second + seq!['/'] + names[2];
            lemma_more(third, second, seq![names[0]].push(names[1]), names[2]);
            assert(tree =~= third);
            assert(names =~= seq![names[0]].push(names[1]).push(names[2]));
        }
    }
}

/// On Windows the system owns what the environment names, where that is an
/// absolute path, and these names at the top of the drive it runs from.
pub proof fn lemma_windows_trees(places: WindowsPlaces)
    ensures
        ({
            let trees = system::trees_of(Platform::Windows, places);
            let set = places.set.deep_view().filter(
                |path: PathView|
                    path.parts.len() > 0 && path.parts[0] is Prefix && (!(
                    path.parts[0] matches Part::Prefix(PrefixPart::Disk(_))) || (path.parts.len()
                        > 1 && path.parts[1] is Root)),
            );
            let names = seq![
                "Windows"@,
                "Program Files"@,
                "Program Files (x86)"@,
                "ProgramData"@,
                "System Volume Information"@,
                "$Recycle.Bin"@,
                "Recovery"@,
                "Boot"@,
                "bootmgr"@,
                "pagefile.sys"@,
                "hiberfil.sys"@,
                "swapfile.sys"@,
            ];
            &&& trees.len() == set.len() + 12
            &&& trees.take(set.len() as int) == set
            &&& forall|i: int|
                0 <= i < 12 ==> #[trigger] trees[set.len() + i] == path::joined(
                    Platform::Windows,
                    places.drive@,
                    seq![Part::Name(vstd::utf8::encode_utf8(names[i]))],
                )
        }),
{
    let set = system::absolute_ones(places.set.deep_view());
    lemma_absolute_ones(places.set.deep_view());
    let trees = system::trees_of(Platform::Windows, places);
    assert(trees.take(set.len() as int) =~= set);
    let owned = system::windows_system_names().map_values(
        |name: Seq<char>|
            path::joined(
                Platform::Windows,
                places.drive@,
                seq![Part::Name(vstd::utf8::encode_utf8(name))],
            ),
    );
    assert(trees =~= set + owned);
    assert forall|i: int| 0 <= i < 12 implies #[trigger] trees[set.len() + i] == owned[i] by {}
}

proof fn lemma_absolute_ones(paths: Seq<PathView>)
    ensures
        system::absolute_ones(paths) == paths.filter(
            |path: PathView|
                path.parts.len() > 0 && path.parts[0] is Prefix && (!(
                path.parts[0] matches Part::Prefix(PrefixPart::Disk(_))) || (path.parts.len() > 1
                    && path.parts[1] is Root)),
        ),
    decreases paths.len(),
{
    reveal(Seq::filter);
    if paths.len() > 0 {
        lemma_absolute_ones(paths.drop_last());
    }
}

/// A tree is told by how it is shown, and compared by its key; the variables
/// that name the trees of Windows, and the drive it runs from, where nothing
/// says otherwise.
pub proof fn lemma_trees_told(
    platform: Platform,
    tree: PathView,
    value: Option<&str>,
    drive: String,
    places: &WindowsPlaces,
    keys: Vec<SystemTree>,
)
    ensures
        system::tree_view(platform, tree).name == path::displayed(platform, tree.text),
        system::tree_view(platform, tree).key == guards::key(platform, tree.parts),
        call_ensures(system::system_drive, (value,), drive) ==> {
            &&& value matches Some(given) ==> drive@ == given@ + "\\"@
            &&& value is None ==> drive@ == "C:\\"@
        },
        call_ensures(system::system_tree_keys, (platform, places), keys) ==> {
            let trees = system::trees_of(platform, *places);
            &&& keys@.len() == trees.len()
            &&& forall|i: int|
                0 <= i < trees.len() ==> (#[trigger] keys@[i])@ == system::tree_view(
                    platform,
                    trees[i],
                )
        },
{
    reveal_strlit("\\");
    reveal_strlit("C:\\");
    reveal_strlit("C:");
    if let Some(given) = value {
        assert(given@.push('\\') =~= given@ + "\\"@);
    }
    assert("C:"@.push('\\') =~= "C:\\"@);
    let trees = system::trees_of(platform, *places);
    let wanted = trees.map_values(|tree: PathView| system::tree_view(platform, tree));
    assert(wanted.len() == trees.len());
    assert(keys.deep_view().len() == keys@.len());
    if keys.deep_view() == wanted {
        assert forall|i: int| 0 <= i < trees.len() implies (#[trigger] keys@[i])@
            == system::tree_view(platform, trees[i]) by {
            assert(keys.deep_view()[i] == wanted[i]);
        }
    }
}

/// The variables that name where Windows and its programs are.
pub proof fn lemma_variables(names: Vec<&'static str>)
    requires
        call_ensures(system::windows_variables, (), names),
    ensures
        names@.map_values(|name: &'static str| name@) == seq![
            "SystemRoot"@,
            "ProgramFiles"@,
            "ProgramFiles(x86)"@,
            "ProgramW6432"@,
            "ProgramData"@,
        ],
{
    assert(names@.map_values(|name: &'static str| name@) =~= seq![
        "SystemRoot"@,
        "ProgramFiles"@,
        "ProgramFiles(x86)"@,
        "ProgramW6432"@,
        "ProgramData"@,
    ]);
}

} // verus!
