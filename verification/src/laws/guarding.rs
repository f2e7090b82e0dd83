//! What holds of every judgement on a marked path.

use vstd::prelude::*;

use crate::guards;
use crate::judge;
use crate::judge::{Facts, FactsView, Home, HomeView, Stat};
use crate::lists;
use crate::mounts;
use crate::path;
use crate::path::{Part, PathBuf, PathView};
use crate::platform::Platform;
use crate::system::{SystemTree, TreeView};
use crate::text;

verus! {

/// One path is inside another, or is the other, exactly where its components
/// begin with all those of the other.
pub proof fn lemma_inside(path: Seq<Part>, base: Seq<Part>)
    ensures
        path::inside(path, base) <==> base.is_prefix_of(path),
        path::inside(path, base) <==> exists|rest: Seq<Part>| path == #[trigger] (base + rest),
        path::inside(path, base) && path::inside(base, path) ==> path == base,
{
    if path::inside(path, base) {
        assert(path =~= base + path.skip(base.len() as int));
    }
    if exists|rest: Seq<Part>| path == #[trigger] (base + rest) {
        let rest = choose|rest: Seq<Part>| path == #[trigger] (base + rest);
        assert(path.take(base.len() as int) =~= base);
    }
    if path::inside(path, base) && path::inside(base, path) {
        assert(path.take(base.len() as int) =~= path);
    }
}

/// The first of `s` that `fits`, with where it stands.
pub proof fn lemma_first<T>(s: Seq<T>, fits: spec_fn(T) -> bool)
    ensures
        match lists::first_where(s, fits) {
            Some(found) => exists|i: int|
                0 <= i < s.len() && s[i] == found && fits(found) && forall|j: int|
                    0 <= j < i ==> !fits(#[trigger] s[j]),
            None => forall|i: int| 0 <= i < s.len() ==> !fits(#[trigger] s[i]),
        },
    decreases s.len(),
{
    lists::lemma_first_where(s, fits);
    if s.len() > 0 {
        if fits(s[0]) {
            assert(s[0] == lists::first_where(s, fits)->0);
        } else {
            let rest = s.drop_first();
            lemma_first(rest, fits);
            if let Some(found) = lists::first_where(rest, fits) {
                let i = choose|i: int|
                    0 <= i < rest.len() && rest[i] == found && fits(found) && forall|j: int|
                        0 <= j < i ==> !fits(#[trigger] rest[j]);
                assert(s[i + 1] == found);
                assert forall|j: int| 0 <= j < i + 1 implies !fits(#[trigger] s[j]) by {
                    if j > 0 {
                        assert(s[j] == rest[j - 1]);
                    }
                }
            }
        }
    }
}

/// A mount is found for a path only where it is at the path or inside it,
/// the first such of the mounts, and one is found whenever there is one; a
/// mount the path itself lies in is none. Strictly inside, the path's own
/// mount does not count.
pub proof fn lemma_mount_found(key: Seq<Part>, mounts: Seq<PathView>)
    ensures
        match mounts::at_or_below(key, mounts) {
            Some(mount) => mounts.contains(mount) && key.is_prefix_of(mount.parts) && exists|i: int|
                0 <= i < mounts.len() && mounts[i] == mount && forall|j: int|
                    0 <= j < i ==> !key.is_prefix_of((#[trigger] mounts[j]).parts),
            None => forall|i: int|
                0 <= i < mounts.len() ==> !key.is_prefix_of((#[trigger] mounts[i]).parts),
        },
        match mounts::below(key, mounts) {
            Some(mount) => mounts.contains(mount) && key.is_prefix_of(mount.parts)
                && mount.parts.len() > key.len() && exists|i: int|
                0 <= i < mounts.len() && mounts[i] == mount && forall|j: int|
                    0 <= j < i ==> !(key.is_prefix_of((#[trigger] mounts[j]).parts)
                        && mounts[j].parts.len() > key.len()),
            None => forall|i: int|
                0 <= i < mounts.len() ==> !(key.is_prefix_of((#[trigger] mounts[i]).parts)
                    && mounts[i].parts.len() > key.len()),
        },
{
    let at = |mount: PathView| path::inside(mount.parts, key);
    let strictly = |mount: PathView| mount.parts != key && path::inside(mount.parts, key);
    assert forall|mount: PathView|
        {
            &&& #[trigger] at(mount) <==> key.is_prefix_of(mount.parts)
            &&& strictly(mount) <==> key.is_prefix_of(mount.parts) && mount.parts.len() > key.len()
        } by {
        lemma_inside(mount.parts, key);
        if key.is_prefix_of(mount.parts) && mount.parts.len() == key.len() {
            assert(mount.parts =~= key);
        }
    }
    lemma_first(mounts, at);
    lemma_first(mounts, strictly);
    if let Some(mount) = mounts::at_or_below(key, mounts) {
        let i = choose|i: int|
            0 <= i < mounts.len() && mounts[i] == mount && at(mount) && forall|j: int|
                0 <= j < i ==> !at(#[trigger] mounts[j]);
        assert(mounts[i] == mount && forall|j: int|
            0 <= j < i ==> !key.is_prefix_of((#[trigger] mounts[j]).parts)) by {
            assert forall|j: int| 0 <= j < i implies !key.is_prefix_of(
                (#[trigger] mounts[j]).parts,
            ) by {
                assert(!at(mounts[j]));
            }
        }
    } else {
        assert forall|i: int| 0 <= i < mounts.len() implies !key.is_prefix_of(
            (#[trigger] mounts[i]).parts,
        ) by {
            assert(!at(mounts[i]));
        }
    }
    if let Some(mount) = mounts::below(key, mounts) {
        assert(at(mount));
        let i = choose|i: int|
            0 <= i < mounts.len() && mounts[i] == mount && strictly(mount) && forall|j: int|
                0 <= j < i ==> !strictly(#[trigger] mounts[j]);
        assert(mounts[i] == mount && forall|j: int|
            0 <= j < i ==> !(key.is_prefix_of((#[trigger] mounts[j]).parts)
                && mounts[j].parts.len() > key.len())) by {
            assert forall|j: int| 0 <= j < i implies !(key.is_prefix_of(
                (#[trigger] mounts[j]).parts,
            ) && mounts[j].parts.len() > key.len()) by {
                assert(!strictly(mounts[j]));
                assert(at(mounts[j]) || !at(mounts[j]));
            }
        }
    } else {
        assert forall|i: int| 0 <= i < mounts.len() implies !(key.is_prefix_of(
            (#[trigger] mounts[i]).parts,
        ) && mounts[i].parts.len() > key.len()) by {
            assert(!strictly(mounts[i]));
            assert(at(mounts[i]) || !at(mounts[i]));
        }
    }
}

/// A path is refused for exactly the first of the guards it fails, each said
/// in its own words, and a path that passes them all is not refused: one
/// with a parent that is not the scanned root, is not misread, is not the
/// home directory by name or by identity and does not hold it, is inside the
/// scanned root, is in no system tree (unless in the home directory) and
/// holds none, is no mount point and has nothing mounted on it or inside it.
pub proof fn lemma_refused_exactly(
    platform: Platform,
    path: PathView,
    root: PathView,
    home: Option<HomeView>,
    mounts: Seq<PathView>,
    trees: Seq<TreeView>,
    facts: FactsView,
)
    ensures
        ({
            let key = guards::key(platform, path.parts).parts;
            let root_key = guards::key(platform, root.parts).parts;
            let says = judge::refusal(platform, path, root, home, mounts, trees, facts);
            let below = path.parts.len() > 0 && (path.parts.last() is Name || path.parts.last()
                is Cur || path.parts.last() is Parent);
            let apart = below && key != root_key;
            let read = apart && (platform is Windows ==> forall|i: int|
                0 <= i < path.parts.len() && (#[trigger] path.parts[i]) is Name ==> !judge::misread(
                    path::displayed(platform, path.parts[i]->Name_0),
                ));
            let away = read && (home matches Some(home) ==> key != home.key.parts && (home.id is None
                || facts.identity != home.id));
            let without = away && (home matches Some(home) ==> !key.is_prefix_of(home.key.parts));
            let scanned = without && (root_key.is_prefix_of(key) || root.parts.is_prefix_of(
                path.parts,
            ));
            let in_home = home matches Some(home) && home.key.parts.is_prefix_of(key);
            let outside = scanned && (in_home || forall|i: int|
                0 <= i < trees.len() ==> !(#[trigger] trees[i]).key.parts.is_prefix_of(key));
            let free = outside && forall|i: int|
                0 <= i < trees.len() ==> !(key.is_prefix_of((#[trigger] trees[i]).key.parts)
                    && trees[i].key.parts != key);
            let settled = free && !facts.mount_point;
            let passes = settled && forall|i: int|
                0 <= i < mounts.len() ==> !key.is_prefix_of((#[trigger] mounts[i]).parts);
            &&& says is None <==> passes
            &&& !below ==> says == Some("the filesystem root cannot be removed"@)
            &&& below && !apart ==> says == Some("the scanned root cannot be removed"@)
            &&& apart && !read ==> exists|i: int|
                {
                    &&& 0 <= i < path.parts.len()
                    &&& (#[trigger] path.parts[i]) is Name
                    &&& judge::misread(path::displayed(platform, path.parts[i]->Name_0))
                    &&& says == Some(
                        "Windows would read "@ + path::displayed(platform, path.parts[i]->Name_0)
                            + " as a different name, and remove that"@,
                    )
                }
            &&& read && !away ==> says == Some("the home directory cannot be removed"@)
            &&& away && !without ==> says == Some("it contains the home directory"@)
            &&& without && !scanned ==> says == Some("outside the scanned root"@)
            &&& scanned && !outside ==> exists|i: int|
                {
                    &&& 0 <= i < trees.len()
                    &&& (#[trigger] trees[i]).key.parts.is_prefix_of(key)
                    &&& says == Some(
                        "part of the system under "@ + trees[i].name + ": "@ + (
                        if platform is Windows {
                            "use Settings, or the program's own uninstaller"@
                        } else {
                            "remove it with the tool that installed it"@
                        }),
                    )
                }
            &&& outside && !free ==> exists|i: int|
                {
                    &&& 0 <= i < trees.len()
                    &&& key.is_prefix_of((#[trigger] trees[i]).key.parts)
                    &&& trees[i].key.parts != key
                    &&& says == Some(
                        "it contains "@ + trees[i].name + ", which is part of the system"@,
                    )
                }
            &&& free && !settled ==> says == Some(
                "a mount point: removing it would cross onto another filesystem"@,
            )
            &&& settled && !passes ==> exists|i: int|
                {
                    &&& 0 <= i < mounts.len()
                    &&& key.is_prefix_of((#[trigger] mounts[i]).parts)
                    &&& says == Some(
                        path::displayed(platform, mounts[i].text)
                            + " is mounted inside it: removing it would reach into another filesystem"@,
                    )
                }
        }),
{
    let key = guards::key(platform, path.parts).parts;
    let root_key = guards::key(platform, root.parts).parts;
    lemma_inside(key, root_key);
    lemma_inside(path.parts, root.parts);
    if let Some(home) = home {
        lemma_inside(home.key.parts, key);
        lemma_inside(key, home.key.parts);
    }
    let over = |tree: TreeView| path::inside(key, tree.key.parts);
    let under = |tree: TreeView| tree.key.parts != key && path::inside(tree.key.parts, key);
    let bad = |part: Part| judge::misread_part(part);
    assert forall|tree: TreeView|
        {
            &&& #[trigger] over(tree) <==> tree.key.parts.is_prefix_of(key)
            &&& under(tree) <==> key.is_prefix_of(tree.key.parts) && tree.key.parts != key
        } by {
        lemma_inside(tree.key.parts, key);
        lemma_inside(key, tree.key.parts);
    }
    lemma_first(trees, over);
    lemma_first(trees, under);
    lemma_first(path.parts, bad);
    lemma_mount_found(key, mounts);
    match lists::first_where(trees, over) {
        Some(tree) => {
            let i = choose|i: int|
                0 <= i < trees.len() && trees[i] == tree && over(tree) && forall|j: int|
                    0 <= j < i ==> !over(#[trigger] trees[j]);
            assert(trees[i].key.parts.is_prefix_of(key));
        },
        None => {
            assert forall|i: int| 0 <= i < trees.len() implies !(
            #[trigger] trees[i]).key.parts.is_prefix_of(key) by {
                assert(!over(trees[i]));
            }
        },
    }
    match lists::first_where(trees, under) {
        Some(tree) => {
            let i = choose|i: int|
                0 <= i < trees.len() && trees[i] == tree && under(tree) && forall|j: int|
                    0 <= j < i ==> !under(#[trigger] trees[j]);
            assert(over(trees[i]) || !over(trees[i]));
            assert(key.is_prefix_of(trees[i].key.parts));
        },
        None => {
            assert forall|i: int| 0 <= i < trees.len() implies !(key.is_prefix_of(
                (#[trigger] trees[i]).key.parts,
            ) && trees[i].key.parts != key) by {
                assert(!under(trees[i]));
                assert(over(trees[i]) || !over(trees[i]));
            }
        },
    }
    match lists::first_where(path.parts, bad) {
        Some(part) => {
            let i = choose|i: int|
                0 <= i < path.parts.len() && path.parts[i] == part && bad(part) && forall|j: int|
                    0 <= j < i ==> !bad(#[trigger] path.parts[j]);
            assert(path.parts[i] is Name);
        },
        None => {
            assert forall|i: int|
                0 <= i < path.parts.len() && (#[trigger] path.parts[i])
                    is Name implies !judge::misread(
                path::displayed(Platform::Windows, path.parts[i]->Name_0),
            ) by {
                assert(!bad(path.parts[i]));
            }
        },
    }
}

/// Right before it is taken away, a path is refused exactly where it is a
/// mount point now, or something is mounted on it or inside it; on Linux
/// also where the mounts cannot be read.
pub proof fn lemma_mounts_asked_again(
    platform: Platform,
    path: PathView,
    mounts: Seq<PathView>,
    mount_point: bool,
)
    ensures
        ({
            let key = guards::key(platform, path.parts).parts;
            let says = judge::mount_refusal(platform, path, mounts, mount_point);
            &&& says is None <==> !mount_point && forall|i: int|
                0 <= i < mounts.len() ==> !key.is_prefix_of((#[trigger] mounts[i]).parts)
            &&& mount_point ==> says == Some("it became a mount point since it was marked"@)
            &&& !mount_point && says is Some ==> exists|i: int|
                {
                    &&& 0 <= i < mounts.len()
                    &&& key.is_prefix_of((#[trigger] mounts[i]).parts)
                    &&& says == Some(
                        path::displayed(platform, mounts[i].text)
                            + " is mounted inside it: removing it would reach into another filesystem"@,
                    )
                }
        }),
        ({
            let key = guards::key(Platform::Linux, path.parts).parts;
            let says = mounts::boundary_refusal(path, Ok(mounts), mount_point);
            &&& says is None <==> !mount_point && forall|i: int|
                0 <= i < mounts.len() ==> !key.is_prefix_of((#[trigger] mounts[i]).parts)
            &&& mount_point ==> says == Some(
                "refusing to remove mounted filesystem "@ + text::shown(path.text),
            )
            &&& !mount_point && says is Some ==> exists|i: int|
                {
                    &&& 0 <= i < mounts.len()
                    &&& key.is_prefix_of((#[trigger] mounts[i]).parts)
                    &&& says == Some(
                        "refusing to remove mounted filesystem "@ + text::shown(mounts[i].text)
                            + " at or inside "@ + text::shown(path.text),
                    )
                }
        }),
        forall|reason: Seq<char>|
            #[trigger] mounts::boundary_refusal(path, Err(reason), mount_point) == Some(reason),
{
    lemma_mount_found(guards::key(platform, path.parts).parts, mounts);
    lemma_mount_found(guards::key(Platform::Linux, path.parts).parts, mounts);
}

/// Where it is known where a path's directory really is, the path is refused
/// exactly where that is not the place the scan shows, as far as the real
/// root is known, or where it holds the real home directory; where it is not
/// known, or the path ends in no name, nothing is said.
pub proof fn lemma_linked_exactly(
    platform: Platform,
    path: PathView,
    root: PathView,
    real_root: Option<PathView>,
    home: Option<HomeView>,
    real_parent: Option<PathView>,
)
    ensures
        ({
            let says = judge::link_refusal(platform, path, root, real_root, home, real_parent);
            if path.parts.len() == 0 || !(path.parts.last() is Name) || real_parent is None {
                says is None
            } else {
                let actual = guards::key(
                    platform,
                    path::joined(platform, real_parent->0, seq![path.parts.last()]).parts,
                );
                let expected = guards::key(
                    platform,
                    path::joined(
                        platform,
                        real_root->0,
                        path.parts.subrange(root.parts.len() as int, path.parts.len() as int),
                    ).parts,
                );
                let elsewhere = real_root is Some && root.parts.is_prefix_of(path.parts)
                    && actual.parts != expected.parts;
                let holds = home matches Some(HomeView { real: Some(place), .. })
                    && actual.parts.is_prefix_of(place.parts);
                &&& says is None <==> !elsewhere && !holds
                &&& elsewhere ==> says == Some(
                    "reached through a link: it is really "@ + path::displayed(
                        platform,
                        actual.text,
                    ),
                )
                &&& !elsewhere && holds ==> says == Some("it contains the home directory"@)
            }
        }),
{
    lemma_inside(path.parts, root.parts);
    if path.parts.len() > 0 && path.parts.last() is Name && real_parent is Some {
        let name = path.parts.last()->Name_0;
        assert(seq![Part::Name(name)] =~= seq![path.parts.last()]);
        let actual = guards::key(
            platform,
            path::joined(platform, real_parent->0, seq![path.parts.last()]).parts,
        );
        if root.parts.is_prefix_of(path.parts) {
            assert(path.parts.skip(root.parts.len() as int) =~= path.parts.subrange(
                root.parts.len() as int,
                path.parts.len() as int,
            ));
        }
        if let Some(home) = home {
            if let Some(place) = home.real {
                lemma_inside(place.parts, actual.parts);
            }
        }
    }
}

/// A path is a mount point exactly where it is a directory and has no
/// parent, or a parent on another device, or one that cannot be asked.
pub proof fn lemma_mount_point_exactly(parts: Seq<Part>, here: Option<Stat>, parent: Option<Stat>)
    ensures
        judge::mounted_there(parts, here, parent) <==> {
            &&& here is Some
            &&& here->0.is_dir
            &&& {
                ||| parts.len() == 0
                ||| parts.last() is Root || parts.last() is Prefix
                ||| parent is None
                ||| parent->0.device != here->0.device
            }
        },
{
}

/// The home directory is compared by its key, by the key of where it really
/// is, and by its identity, as far as those are known.
pub proof fn lemma_home_known(
    platform: Platform,
    path: &PathBuf,
    resolved: Option<&PathBuf>,
    id: Option<(u64, u64)>,
    home: Home,
)
    requires
        call_ensures(Home::of, (platform, path, resolved, id), home),
    ensures
        home@.key == guards::key(platform, path@.parts),
        resolved is None ==> home@.real is None,
        resolved matches Some(place) ==> home@.real == Some(guards::key(platform, place@.parts)),
        home@.id == id,
{
}

/// The mount that is found is at or inside the path, and none is found only
/// where none is; what refuses a path, because of a guard, a link or a
/// mount, says why, and says nothing where nothing does.
pub proof fn lemma_judged(
    platform: Platform,
    path: &PathBuf,
    root: &PathBuf,
    home: Option<&Home>,
    mounts: &[PathBuf],
    trees: &[SystemTree],
    facts: &Facts,
    found: Option<&PathBuf>,
    says: Option<String>,
)
    ensures
        call_ensures(mounts::mount_at_or_below, (path, mounts), found) ==> (match found {
            Some(mount) => mounts.deep_view().contains(mount@) && path@.parts.is_prefix_of(
                mount@.parts,
            ),
            None => forall|i: int|
                0 <= i < mounts@.len() ==> !path@.parts.is_prefix_of(
                    (#[trigger] mounts.deep_view()[i]).parts,
                ),
        }),
        call_ensures(mounts::mount_below, (path, mounts), found) ==> (match found {
            Some(mount) => mounts.deep_view().contains(mount@) && path@.parts.is_prefix_of(
                mount@.parts,
            ) && mount@.parts.len() > path@.parts.len(),
            None => forall|i: int|
                0 <= i < mounts@.len() ==> !(path@.parts.is_prefix_of(
                    (#[trigger] mounts.deep_view()[i]).parts,
                ) && mounts.deep_view()[i].parts.len() > path@.parts.len()),
        }),
        call_ensures(judge::refuse, (platform, path, root, home, mounts, trees, facts), says) ==> (
        match says {
            Some(reason) => judge::refusal(
                platform,
                path@,
                root@,
                judge::home_view(home),
                mounts.deep_view(),
                trees.deep_view(),
                facts@,
            ) == Some(reason@),
            None => judge::refusal(
                platform,
                path@,
                root@,
                judge::home_view(home),
                mounts.deep_view(),
                trees.deep_view(),
                facts@,
            ) is None,
        }),
        call_ensures(judge::mounted, (platform, path, mounts, facts.mount_point), says) ==> (
        match says {
            Some(reason) => judge::mount_refusal(
                platform,
                path@,
                mounts.deep_view(),
                facts.mount_point,
            ) == Some(reason@),
            None => judge::mount_refusal(
                platform,
                path@,
                mounts.deep_view(),
                facts.mount_point,
            ) is None,
        }),
{
    lemma_mount_found(path@.parts, mounts.deep_view());
}

} // verus!
