//! What holds of the marks.

use vstd::prelude::*;

use crate::laws::guarding;
use crate::lists;
use crate::marks;
use crate::marks::Marks;
use crate::path;
use crate::path::{Part, PathBuf, PathView};
use crate::platform::Platform;
use crate::removal::{Target, TargetView};
use crate::text;
use crate::tree;
use crate::tree::{Metric, Node, NodeKind, NodeView};

verus! {

/// What is kept of a sequence is what passes, in order.
pub proof fn lemma_kept_passes<T>(s: Seq<T>, fits: spec_fn(T) -> bool)
    ensures
        lists::kept(s, fits) == s.filter(fits),
    decreases s.len(),
{
    reveal(Seq::filter);
    if s.len() > 0 {
        lemma_kept_passes(s.drop_last(), fits);
    }
}

/// Toggling a path that is not marked puts its mark after the others;
/// toggling one that is takes off exactly the marks of that path, and
/// leaves the others in their order. Taking a mark off does the same.
pub proof fn lemma_toggled_exactly(items: Seq<TargetView>, target: TargetView)
    ensures
        ({
            let parts = target.path.parts;
            let marked = exists|i: int|
                0 <= i < items.len() && (#[trigger] items[i]).path.parts == parts;
            let others = items.filter(|item: TargetView| item.path.parts != parts);
            &&& !marked ==> marks::toggled(items, target) == items.push(target)
            &&& marked ==> marks::toggled(items, target) == others
            &&& lists::kept(items, marks::other_than(parts)) == others
            &&& marks::has_mark(items, parts) == marked
        }),
{
    lemma_kept_passes(items, marks::other_than(target.path.parts));
}

/// A mark whose path is in the new tree has the size and the kind that the
/// tree has there, whatever it had before, and is hidden exactly where its
/// name starts with a dot or its attribute says so; a mark whose path is not
/// in the tree counts nothing and is otherwise as it was.
pub proof fn lemma_refreshed_from_the_tree(
    platform: Platform,
    item: TargetView,
    root_path: Seq<Part>,
    root: NodeView,
    attribute: bool,
)
    ensures
        ({
            let now = marks::refreshed(platform, item, root_path, root, attribute);
            &&& now.path == item.path
            &&& marks::found(platform, root_path, root, item.path.parts) matches Some(node) ==> {
                &&& now.bytes == node.bytes
                &&& now.is_dir == (node.kind is Directory)
                &&& attribute ==> now.hidden
                &&& !attribute ==> (now.hidden <==> item.path.parts.len() > 0 && (
                item.path.parts.last() matches Part::Name(name) && text::shown(name).len() > 0
                    && text::shown(name)[0] == '.'))
            }
            &&& marks::found(platform, root_path, root, item.path.parts) is None ==> now == (
            TargetView { bytes: 0, ..item })
        }),
{
}

/// Two marks of one path come out of a fresh scan with the same size, and,
/// where the path is still there, the same in everything.
pub proof fn lemma_refreshed_alike(
    platform: Platform,
    one: TargetView,
    two: TargetView,
    root_path: Seq<Part>,
    root: NodeView,
    attribute: bool,
)
    requires
        one.path == two.path,
    ensures
        ({
            let a = marks::refreshed(platform, one, root_path, root, attribute);
            let b = marks::refreshed(platform, two, root_path, root, attribute);
            &&& a.bytes == b.bytes
            &&& marks::found(platform, root_path, root, one.path.parts) is Some ==> a == b
        }),
{
}

proof fn lemma_node_at_last(platform: Platform, node: NodeView, parts: Seq<Part>, part: Part)
    ensures
        marks::node_at(platform, node, parts.push(part)) == match marks::node_at(
            platform,
            node,
            parts,
        ) {
            Some(there) => lists::first_where(
                there.children,
                marks::is_called(marks::part_shown(platform, part)),
            ),
            None => None,
        },
    decreases parts.len(),
{
    let all = parts.push(part);
    if parts.len() == 0 {
        assert(all.skip(1) =~= Seq::<Part>::empty());
        match lists::first_where(
            node.children,
            marks::is_called(marks::part_shown(platform, part)),
        ) {
            Some(child) => {
                assert(marks::node_at(platform, child, all.skip(1)) == Some(child));
            },
            None => {},
        }
    } else {
        assert(all[0] == parts[0]);
        assert(all.skip(1) =~= parts.skip(1).push(part));
        match lists::first_where(
            node.children,
            marks::is_called(marks::part_shown(platform, parts[0])),
        ) {
            Some(child) => {
                lemma_node_at_last(platform, child, parts.skip(1), part);
            },
            None => {},
        }
    }
}

/// A path is found one name at a time: what is found at it is the first
/// entry, of what is found at the path it is in, that is called like its
/// last component; where there is no such entry, or nothing is found there,
/// nothing is. The root's own path is the root, and no path outside it is
/// found.
pub proof fn lemma_found_by_name(
    platform: Platform,
    root_path: Seq<Part>,
    root: NodeView,
    path: Seq<Part>,
    name: Seq<u8>,
)
    requires
        root_path.is_prefix_of(path),
    ensures
        marks::found(platform, root_path, root, root_path) == Some(root),
        forall|other: Seq<Part>|
            !root_path.is_prefix_of(other) ==> (#[trigger] marks::found(
                platform,
                root_path,
                root,
                other,
            )) is None,
        match marks::found(platform, root_path, root, path) {
            None => marks::found(platform, root_path, root, path.push(Part::Name(name))) is None,
            Some(dir) => match marks::found(
                platform,
                root_path,
                root,
                path.push(Part::Name(name)),
            ) {
                Some(node) => exists|i: int|
                    {
                        &&& 0 <= i < dir.children.len()
                        &&& #[trigger] dir.children[i] == node
                        &&& node.name == path::displayed(platform, name)
                        &&& forall|j: int|
                            0 <= j < i ==> (#[trigger] dir.children[j]).name != path::displayed(
                                platform,
                                name,
                            )
                    },
                None => forall|i: int|
                    0 <= i < dir.children.len() ==> (#[trigger] dir.children[i]).name
                        != path::displayed(platform, name),
            },
        },
{
    marks::lemma_find_root(platform, root_path, root, root_path);
    assert forall|other: Seq<Part>| !root_path.is_prefix_of(other) implies (
    #[trigger] marks::found(platform, root_path, root, other)) is None by {
        guarding::lemma_inside(other, root_path);
    }
    let part = Part::Name(name);
    let longer = path.push(part);
    let n = root_path.len() as int;
    guarding::lemma_inside(path, root_path);
    guarding::lemma_inside(longer, root_path);
    assert(longer.take(n) =~= path.take(n));
    assert(longer.skip(n) =~= path.skip(n).push(part));
    lemma_node_at_last(platform, root, path.skip(n), part);
    if let Some(dir) = marks::found(platform, root_path, root, path) {
        let fits = marks::is_called(marks::part_shown(platform, part));
        guarding::lemma_first(dir.children, fits);
        match lists::first_where(dir.children, fits) {
            Some(node) => {
                let i = choose|i: int|
                    0 <= i < dir.children.len() && dir.children[i] == node && fits(node)
                        && forall|j: int| 0 <= j < i ==> !fits(#[trigger] dir.children[j]);
                assert forall|j: int| 0 <= j < i implies (#[trigger] dir.children[j]).name
                    != path::displayed(platform, name) by {
                    assert(!fits(dir.children[j]));
                }
                assert(dir.children[i] == node);
            },
            None => {
                assert forall|i: int| 0 <= i < dir.children.len() implies (
                #[trigger] dir.children[i]).name != path::displayed(platform, name) by {
                    assert(!fits(dir.children[i]));
                }
            },
        }
    }
}

/// The home directory is shown as `~`, and a path outside it, or where no
/// home is known, as it is.
pub proof fn lemma_shown_short(platform: Platform, path: PathView, home: PathView)
    ensures
        marks::shortened(platform, path, None) == path::displayed(platform, path.text),
        !home.parts.is_prefix_of(path.parts) ==> marks::shortened(platform, path, Some(home))
            == path::displayed(platform, path.text),
        path.parts == home.parts ==> marks::shortened(platform, path, Some(home)) == "~"@,
{
    guarding::lemma_inside(path.parts, home.parts);
}

/// A name with no separator in it that is not a dot.
pub open spec fn stands_alone(platform: Platform, name: Seq<u8>) -> bool {
    &&& name.len() > 0
    &&& name != seq![46u8]
    &&& forall|i: int| 0 <= i < name.len() ==> !path::is_separator(platform, #[trigger] name[i])
}

/// The names, with a separator between.
pub open spec fn listed(sep: u8, names: Seq<Seq<u8>>) -> Seq<u8>
    decreases names.len(),
{
    if names.len() == 0 {
        seq![]
    } else if names.len() == 1 {
        names[0]
    } else {
        listed(sep, names.drop_last()) + seq![sep] + names.last()
    }
}

proof fn lemma_piece_start(platform: Platform, front: Seq<u8>, name: Seq<u8>)
    requires
        front.len() > 0,
        path::is_separator(platform, front.last()),
        forall|i: int| 0 <= i < name.len() ==> !path::is_separator(platform, #[trigger] name[i]),
    ensures
        path::piece_start(platform, false, front + name) == front.len(),
    decreases name.len(),
{
    let whole = front + name;
    if name.len() == 0 {
        assert(whole =~= front);
    } else {
        let rest = name.drop_last();
        assert(whole.last() == name[name.len() - 1]);
        assert(whole.drop_last() =~= front + rest);
        assert forall|i: int| 0 <= i < rest.len() implies !path::is_separator(
            platform,
            #[trigger] rest[i],
        ) by {
            assert(rest[i] == name[i]);
        }
        lemma_piece_start(platform, front, rest);
    }
}

proof fn lemma_tail_start(platform: Platform, base: Seq<u8>, names: Seq<Seq<u8>>)
    requires
        names.len() > 0,
        forall|i: int| 0 <= i < names.len() ==> stands_alone(platform, #[trigger] names[i]),
    ensures
        ({
            let sep = platform.separator_spec();
            let text = base + seq![sep] + listed(sep, names);
            &&& path::tail_start(platform, false, text, names.len()) == base.len() + 1
            &&& path::ended(platform, false, text) == text
        }),
    decreases names.len(),
{
    let sep = platform.separator_spec();
    let text = base + seq![sep] + listed(sep, names);
    let name = names.last();
    assert(name == names[names.len() - 1]);
    assert(stands_alone(platform, name));
    let front = if names.len() == 1 {
        base + seq![sep]
    } else {
        base + seq![sep] + listed(sep, names.drop_last()) + seq![sep]
    };
    assert(text =~= front + name);
    assert(front.last() == sep);
    lemma_piece_start(platform, front, name);
    assert(text.skip(front.len() as int) =~= name);
    if names.len() > 1 {
        let rest = names.drop_last();
        assert forall|i: int| 0 <= i < rest.len() implies stands_alone(
            platform,
            #[trigger] rest[i],
        ) by {
            assert(rest[i] == names[i]);
        }
        lemma_tail_start(platform, base, rest);
        assert(text.take(front.len() - 1) =~= base + seq![sep] + listed(sep, rest));
    }
}

/// A path below the home directory is shown as `~`, a separator, and the
/// names that lead down to it from there.
pub proof fn lemma_shown_below_home(
    platform: Platform,
    path: PathView,
    home: PathView,
    base: Seq<u8>,
    names: Seq<Seq<u8>>,
)
    requires
        !path::is_verbatim(path.parts),
        names.len() > 0,
        forall|i: int| 0 <= i < names.len() ==> stands_alone(platform, #[trigger] names[i]),
        path.parts == home.parts + names.map_values(|name: Seq<u8>| Part::Name(name)),
        path.text == base + seq![platform.separator_spec()] + listed(
            platform.separator_spec(),
            names,
        ),
    ensures
        marks::shortened(platform, path, Some(home)) == (if platform is Windows {
            "~\\"@
        } else {
            "~/"@
        }) + path::displayed(platform, listed(platform.separator_spec(), names)),
{
    reveal_strlit("~\\");
    reveal_strlit("~/");
    let sep = platform.separator_spec();
    let below = names.map_values(|name: Seq<u8>| Part::Name(name));
    assert(below.len() == names.len());
    assert(path.parts.take(home.parts.len() as int) =~= home.parts);
    assert(path.parts.skip(home.parts.len() as int) =~= below);
    lemma_tail_start(platform, base, names);
    assert(path.text.skip(base.len() as int + 1) =~= listed(sep, names));
    let lead = seq!['~', sep as char];
    if platform is Windows {
        assert(lead =~= "~\\"@);
    } else {
        assert(lead =~= "~/"@);
    }
}

/// The bytes of `nodes`, added up.
pub open spec fn total_of(nodes: Seq<NodeView>) -> nat
    decreases nodes.len(),
{
    if nodes.len() == 0 {
        0
    } else {
        total_of(nodes.drop_last()) + nodes.last().bytes as nat
    }
}

proof fn lemma_sum(nodes: Seq<NodeView>)
    ensures
        tree::sum_of(nodes) == if total_of(nodes) <= u64::MAX {
            total_of(nodes)
        } else {
            u64::MAX as nat
        },
    decreases nodes.len(),
{
    if nodes.len() > 0 {
        lemma_sum(nodes.drop_last());
    }
}

/// Measuring a tree keeps every name, kind and entry in its place and the
/// bytes of every file, and gives each directory the sum of its measured
/// entries, as far as it can be counted.
pub proof fn lemma_measured(node: NodeView)
    ensures
        ({
            let now = tree::aggregated(node);
            &&& now.name == node.name
            &&& now.kind == node.kind
            &&& now.children.len() == node.children.len()
            &&& forall|i: int|
                0 <= i < node.children.len() ==> #[trigger] now.children[i] == tree::aggregated(
                    node.children[i],
                )
            &&& node.kind is File ==> now.bytes == node.bytes
            &&& node.kind is Directory && total_of(now.children) <= u64::MAX ==> now.bytes
                == total_of(now.children)
            &&& node.kind is Directory && total_of(now.children) > u64::MAX ==> now.bytes
                == u64::MAX
        }),
{
    tree::lemma_aggregated_children(node);
    lemma_sum(tree::aggregated(node).children);
}

// ---------------------------------------------------------------------
// The marks themselves.
// ---------------------------------------------------------------------

/// A path is marked exactly where one of the marks has its components, and
/// there are as many marks as are listed.
pub proof fn lemma_marked(marks: &Marks, path: &PathBuf, marked: bool, count: usize, none: bool)
    ensures
        call_ensures(Marks::contains, (marks, path), marked) ==> (marked <==> exists|i: int|
            0 <= i < marks@.len() && (#[trigger] marks@[i]).path.parts == path@.parts),
        call_ensures(Marks::len, (marks,), count) ==> count == marks@.len(),
        call_ensures(Marks::is_empty, (marks,), none) ==> (none <==> marks@.len() == 0),
{
}

/// Toggling says whether the path is marked then, and marks it last or takes
/// off exactly its marks; taking a mark off leaves every other in its order;
/// and clearing leaves none.
pub proof fn lemma_marks_change(marks: &mut Marks, target: Target, path: &PathBuf, marked: bool)
    ensures
        call_ensures(Marks::toggle, (marks, target), marked) ==> {
            let parts = target@.path.parts;
            &&& marked <==> !exists|i: int|
                0 <= i < old(marks)@.len() && (#[trigger] old(marks)@[i]).path.parts == parts
            &&& marked ==> final(marks)@ == old(marks)@.push(target@)
            &&& !marked ==> final(marks)@ == old(marks)@.filter(
                |item: TargetView| item.path.parts != parts,
            )
        },
        call_ensures(Marks::remove, (marks, path), ()) ==> final(marks)@ == old(marks)@.filter(
            |item: TargetView| item.path.parts != path@.parts,
        ),
        call_ensures(Marks::clear, (marks,), ()) ==> final(marks)@.len() == 0,
{
    lemma_toggled_exactly(old(marks)@, target@);
    lemma_kept_passes(old(marks)@, marks::other_than(path@.parts));
}

/// After a fresh scan every mark is in its place, by its path, and has the
/// size the new tree has at that path, whatever it had before; nothing, and
/// is otherwise as it was, where the tree has nothing there.
pub proof fn lemma_refresh_reads_the_tree(
    marks: &mut Marks,
    platform: Platform,
    root_path: &PathBuf,
    root: &Node,
    metric: Metric,
    attributes: &[bool],
)
    requires
        call_ensures(Marks::refresh, (marks, platform, root_path, root, metric, attributes), ()),
    ensures
        final(marks)@.len() == old(marks)@.len(),
        forall|i: int|
            0 <= i < old(marks)@.len() ==> {
                let now = #[trigger] final(marks)@[i];
                let was = old(marks)@[i];
                &&& now.path == was.path
                &&& match marks::found(platform, root_path@.parts, root@, was.path.parts) {
                    Some(node) => {
                        &&& now.bytes == node.bytes
                        &&& now.is_dir == (node.kind is Directory)
                        &&& now.hidden <==> (i < attributes@.len() && attributes@[i]) || (
                        was.path.parts.len() > 0 && (was.path.parts.last() matches Part::Name(name)
                            && text::shown(name).len() > 0 && text::shown(name)[0] == '.'))
                    },
                    None => now.bytes == 0 && now.is_dir == was.is_dir && now.hidden == was.hidden,
                }
            },
{
}

/// What a node measures is its bytes, and it is a directory by its kind; an
/// entry that was made is what it was made of, with nothing in it.
pub proof fn lemma_node_says(
    node: &Node,
    metric: Metric,
    value: u64,
    is_dir: bool,
    name: &str,
    kind: NodeKind,
    bytes: u64,
    made: Node,
)
    ensures
        call_ensures(Node::value, (node, metric), value) ==> value == node@.bytes,
        call_ensures(Node::is_dir, (node,), is_dir) ==> (is_dir <==> node@.kind is Directory),
        call_ensures(Node::entry, (name, kind, bytes), made) ==> made@.name == name@ && made@.kind
            == kind && made@.bytes == bytes && made@.children.len() == 0,
        call_ensures(Node::directory, (name,), made) ==> made@.name == name@ && made@.kind
            is Directory && made@.bytes == 0 && made@.children.len() == 0,
{
}

/// A path is hidden exactly where its name starts with a dot or its
/// attribute says so; a path without a name only by its attribute.
pub proof fn lemma_hidden(path: &PathBuf, attribute: bool, hidden: bool)
    requires
        call_ensures(marks::is_hidden, (path, attribute), hidden),
    ensures
        hidden <==> attribute || (path@.parts.len() > 0 && (path@.parts.last() matches Part::Name(
            name,
        ) && text::shown(name).len() > 0 && text::shown(name)[0] == '.')),
{
}

} // verus!
