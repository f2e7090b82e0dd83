//! The set of paths marked for removal.
//!
//! Marks are keyed by absolute path, not by tree position: the tree is
//! re-scanned after a removal, and a mark must survive that (or be reported
//! as gone) rather than silently pointing at a different node.

use rustc_hash::FxHashSet;
use vstd::prelude::*;

use crate::lists;
use crate::path;
use crate::path::{Component, Part, PathBuf, PathView};
use crate::platform::Platform;
use crate::removal::{Target, TargetView};
use crate::text;
use crate::tree;
use crate::tree::{Metric, Node, NodeView};

verus! {

// ---------------------------------------------------------------------
// The index of marked paths.
// ---------------------------------------------------------------------

/// The hasher of the index: `rustc_hash::FxBuildHasher`.
#[verifier::external_type_specification]
#[verifier::external_body]
pub struct ExFxBuildHasher(rustc_hash::FxBuildHasher);

/// What stands for one component of a path in the index.
pub type KeyPart = (u8, u8, Vec<u8>, Vec<u8>);

/// What a [`KeyPart`] stands for.
pub type KeyPartView = (u8, u8, Seq<u8>, Seq<u8>);

/// What an index holds: a `rustc_hash::FxHashSet`, by the keys in it.
pub uninterp spec fn held(index: FxHashSet<Vec<(u8, u8, Vec<u8>, Vec<u8>)>>) -> Set<
    Seq<(u8, u8, Seq<u8>, Seq<u8>)>,
>;

/// `FxHashSet::default`: a set that holds nothing.
#[verifier::external_body]
fn empty_index() -> (r: FxHashSet<Vec<KeyPart>>)
    ensures
        held(r) == Set::<Seq<KeyPartView>>::empty(),
{
    FxHashSet::default()
}

/// `FxHashSet::contains`: whether a key equal to this one is in the set.
#[verifier::external_body]
fn index_holds(index: &FxHashSet<Vec<KeyPart>>, key: &Vec<KeyPart>) -> (r: bool)
    ensures
        r == held(*index).contains(key.deep_view()),
{
    index.contains(key)
}

/// `FxHashSet::insert`: the set then holds the key and what it held before,
/// and says whether the key is new in it.
#[verifier::external_body]
fn index_insert(index: &mut FxHashSet<Vec<KeyPart>>, key: Vec<KeyPart>) -> (r: bool)
    ensures
        held(*final(index)) == held(*old(index)).insert(key.deep_view()),
        r == !held(*old(index)).contains(key.deep_view()),
{
    index.insert(key)
}

/// `FxHashSet::remove`: the set then holds what it held before without the
/// key, and says whether it was there.
#[verifier::external_body]
fn index_remove(index: &mut FxHashSet<Vec<KeyPart>>, key: &Vec<KeyPart>) -> (r: bool)
    ensures
        held(*final(index)) == held(*old(index)).remove(key.deep_view()),
        r == held(*old(index)).contains(key.deep_view()),
{
    index.remove(key)
}

/// `FxHashSet::clear`: the set then holds nothing.
#[verifier::external_body]
fn index_clear(index: &mut FxHashSet<Vec<KeyPart>>)
    ensures
        held(*final(index)) == Set::<Seq<KeyPartView>>::empty(),
{
    index.clear()
}

/// What stands for a component in the index.
pub open spec fn part_key(part: Part) -> KeyPartView {
    let rank = path::part_rank(part);
    (rank.0 as u8, rank.1 as u8, rank.2, rank.3)
}

/// What stands for a path in the index.
pub open spec fn key_of(parts: Seq<Part>) -> Seq<KeyPartView> {
    parts.map_values(|part: Part| part_key(part))
}

/// Different paths stand for themselves in the index.
pub proof fn lemma_key_injective(a: Seq<Part>, b: Seq<Part>)
    requires
        key_of(a) == key_of(b),
    ensures
        a == b,
{
    assert(a.len() == key_of(a).len() && b.len() == key_of(b).len());
    assert forall|i: int| 0 <= i < a.len() implies a[i] == b[i] by {
        assert(key_of(a)[i] == part_key(a[i]));
        assert(key_of(b)[i] == part_key(b[i]));
        path::lemma_rank_injective(a[i], b[i]);
    }
    assert(a =~= b);
}

/// What stands for `path` in the index.
fn path_key(path: &PathBuf) -> (r: Vec<KeyPart>)
    ensures
        r.deep_view() == key_of(path@.parts),
{
    let mut key: Vec<KeyPart> = Vec::new();
    let mut i: usize = 0;
    while i < path.parts.len()
        invariant
            i <= path.parts@.len(),
            key@.len() == i,
            forall|k: int|
                0 <= k < i ==> (#[trigger] key@[k]).deep_view() == part_key(path.parts@[k]@),
        decreases path.parts@.len() - i,
    {
        let rank = path.parts[i].rank();
        proof {
            assert(rank.2.deep_view() =~= rank.2@);
            assert(rank.3.deep_view() =~= rank.3@);
        }
        key.push(rank);
        i += 1;
    }
    assert(key.deep_view() =~= key_of(path@.parts));
    key
}

// ---------------------------------------------------------------------
// Marks.
// ---------------------------------------------------------------------

/// Marked paths, in the order they were marked.
#[derive(Debug)]
pub struct Marks {
    items: Vec<Target>,
    index: FxHashSet<Vec<KeyPart>>,
}

/// One of `items` has the path with these components.
pub open spec fn has_mark(items: Seq<TargetView>, parts: Seq<Part>) -> bool {
    exists|i: int| 0 <= i < items.len() && (#[trigger] items[i]).path.parts == parts
}

/// No path is marked twice.
pub open spec fn marked_once(items: Seq<TargetView>) -> bool {
    forall|i: int, j: int|
        0 <= i < j < items.len() ==> (#[trigger] items[i]).path.parts != (
        #[trigger] items[j]).path.parts
}

/// A mark of another path than the one with these components.
pub open spec fn other_than(parts: Seq<Part>) -> spec_fn(TargetView) -> bool {
    |item: TargetView| item.path.parts != parts
}

/// `items` with `target` marked last, or with the mark of its path taken off
/// when it has one.
pub open spec fn toggled(items: Seq<TargetView>, target: TargetView) -> Seq<TargetView> {
    if has_mark(items, target.path.parts) {
        lists::kept(items, other_than(target.path.parts))
    } else {
        items.push(target)
    }
}

impl View for Marks {
    type V = Seq<TargetView>;

    closed spec fn view(&self) -> Seq<TargetView> {
        self.items.deep_view()
    }
}

impl Marks {
    /// The index holds exactly the marked paths, and each is marked once.
    pub closed spec fn wf(&self) -> bool {
        &&& marked_once(self@)
        &&& forall|parts: Seq<Part>| #[trigger]
            held(self.index).contains(key_of(parts)) <==> has_mark(self@, parts)
    }

    /// Nothing marked.
    pub fn new() -> (r: Marks)
        ensures
            r.wf(),
            r@ == Seq::<TargetView>::empty(),
    {
        let marks = Marks { items: Vec::new(), index: empty_index() };
        assert(marks@ =~= Seq::<TargetView>::empty());
        marks
    }

    pub fn contains(&self, path: &PathBuf) -> (r: bool)
        requires
            self.wf(),
        ensures
            r == has_mark(self@, path@.parts),
    {
        let key = path_key(path);
        index_holds(&self.index, &key)
    }

    pub fn items(&self) -> (r: &[Target])
        ensures
            r.deep_view() == self@,
    {
        let all = self.items.as_slice();
        assert(all.deep_view() =~= self@);
        all
    }

    pub fn len(&self) -> (r: usize)
        ensures
            r == self@.len(),
    {
        self.items.len()
    }

    pub fn is_empty(&self) -> (r: bool)
        ensures
            r == (self@.len() == 0),
    {
        self.items.len() == 0
    }

    /// Take the mark of `path` off the list; the index is left alone.
    fn retain_others(&mut self, path: &PathBuf)
        ensures
            final(self)@ == lists::kept(old(self)@, other_than(path@.parts)),
            final(self).index == old(self).index,
    {
        let ghost all = self@;
        let ghost fits = other_than(path@.parts);
        let mut items: Vec<Target> = Vec::new();
        let mut i: usize = 0;
        assert(all.take(0) =~= Seq::<TargetView>::empty());
        assert(items.deep_view() =~= lists::kept(all.take(0), fits));
        while i < self.items.len()
            invariant
                i <= self.items@.len(),
                all == self.items.deep_view(),
                fits == other_than(path@.parts),
                items.deep_view() == lists::kept(all.take(i as int), fits),
                self.index == old(self).index,
            decreases self.items@.len() - i,
        {
            let ghost before = items.deep_view();
            proof {
                assert(all.take(i + 1).drop_last() =~= all.take(i as int));
                assert(all.take(i + 1).last() == self.items@[i as int]@);
            }
            if !self.items[i].path.same(path) {
                items.push(self.items[i].clone());
                assert(items.deep_view() =~= before.push(all[i as int]));
            }
            i += 1;
        }
        assert(all.take(all.len() as int) =~= all);
        self.items = items;
    }

    /// Mark `target`, or unmark it when it is already marked.
    ///
    /// Returns `true` when the path ended up marked.
    pub fn toggle(&mut self, target: Target) -> (r: bool)
        requires
            old(self).wf(),
        ensures
            final(self).wf(),
            r == !has_mark(old(self)@, target@.path.parts),
            final(self)@ == toggled(old(self)@, target@),
    {
        let key = path_key(&target.path);
        let ghost before = *self;
        let ghost parts = target@.path.parts;
        if index_remove(&mut self.index, &key) {
            self.retain_others(&target.path);
            proof {
                lemma_unmarked(before, *self, parts);
            }
            false
        } else {
            proof {
                assert(held(self.index) =~= held(before.index));
            }
            index_insert(&mut self.index, key);
            let ghost view = target@;
            self.items.push(target);
            proof {
                assert(self@ =~= before@.push(view));
                lemma_marked(before, *self, view);
            }
            true
        }
    }

    pub fn remove(&mut self, path: &PathBuf)
        requires
            old(self).wf(),
        ensures
            final(self).wf(),
            final(self)@ == lists::kept(old(self)@, other_than(path@.parts)),
    {
        let key = path_key(path);
        let ghost before = *self;
        if index_remove(&mut self.index, &key) {
            self.retain_others(path);
            proof {
                lemma_unmarked(before, *self, path@.parts);
            }
        } else {
            proof {
                assert(held(self.index) =~= held(before.index));
                lemma_kept_all(before@, path@.parts);
            }
        }
    }

    pub fn clear(&mut self)
        ensures
            final(self).wf(),
            final(self)@ == Seq::<TargetView>::empty(),
    {
        self.items = Vec::new();
        index_clear(&mut self.index);
        assert(self@ =~= Seq::<TargetView>::empty());
    }
}

proof fn lemma_kept_all(items: Seq<TargetView>, parts: Seq<Part>)
    requires
        !has_mark(items, parts),
    ensures
        lists::kept(items, other_than(parts)) == items,
    decreases items.len(),
{
    if items.len() > 0 {
        let front = items.drop_last();
        assert(!has_mark(front, parts)) by {
            if has_mark(front, parts) {
                let i = choose|i: int|
                    0 <= i < front.len() && (#[trigger] front[i]).path.parts == parts;
                assert(items[i].path.parts == parts);
            }
        }
        lemma_kept_all(front, parts);
        assert(items[items.len() - 1].path.parts != parts);
        assert(front.push(items.last()) =~= items);
    } else {
        assert(lists::kept(items, other_than(parts)) =~= items);
    }
}

proof fn lemma_kept_once(items: Seq<TargetView>, parts: Seq<Part>)
    requires
        marked_once(items),
    ensures
        marked_once(lists::kept(items, other_than(parts))),
    decreases items.len(),
{
    if items.len() > 0 {
        let front = items.drop_last();
        let fits = other_than(parts);
        assert(marked_once(front)) by {
            assert forall|i: int, j: int| 0 <= i < j < front.len() implies (
            #[trigger] front[i]).path.parts != (#[trigger] front[j]).path.parts by {
                assert(items[i].path.parts != items[j].path.parts);
            }
        }
        lemma_kept_once(front, parts);
        lists::lemma_kept(front, fits);
        let rest = lists::kept(front, fits);
        let all = lists::kept(items, fits);
        assert forall|i: int, j: int| 0 <= i < j < all.len() implies (
        #[trigger] all[i]).path.parts != (#[trigger] all[j]).path.parts by {
            assert(all[i] == rest[i]);
            if j < rest.len() {
                assert(all[j] == rest[j]);
            } else {
                assert(all[j] == items.last());
                assert(rest.contains(rest[i]));
                let k = choose|k: int| 0 <= k < front.len() && front[k] == rest[i];
                assert(items[k] == rest[i]);
                assert(items[items.len() - 1] == items.last());
            }
        }
    }
}

proof fn lemma_kept_marks(items: Seq<TargetView>, gone: Seq<Part>, parts: Seq<Part>)
    ensures
        has_mark(lists::kept(items, other_than(gone)), parts) <==> has_mark(items, parts) && parts
            != gone,
{
    let fits = other_than(gone);
    let rest = lists::kept(items, fits);
    lists::lemma_kept(items, fits);
    if has_mark(items, parts) && parts != gone {
        let i = choose|i: int| 0 <= i < items.len() && (#[trigger] items[i]).path.parts == parts;
        assert(items.contains(items[i]));
        assert(rest.contains(items[i]));
        let k = choose|k: int| 0 <= k < rest.len() && rest[k] == items[i];
        assert(rest[k].path.parts == parts);
    }
    if has_mark(rest, parts) {
        let k = choose|k: int| 0 <= k < rest.len() && (#[trigger] rest[k]).path.parts == parts;
        assert(rest.contains(rest[k]));
        let i = choose|i: int| 0 <= i < items.len() && items[i] == rest[k];
        assert(items[i].path.parts == parts);
    }
}

proof fn lemma_unmarked(before: Marks, after: Marks, gone: Seq<Part>)
    requires
        before.wf(),
        after@ == lists::kept(before@, other_than(gone)),
        held(after.index) == held(before.index).remove(key_of(gone)),
    ensures
        after.wf(),
{
    lemma_kept_once(before@, gone);
    assert forall|parts: Seq<Part>| #[trigger]
        held(after.index).contains(key_of(parts)) <==> has_mark(after@, parts) by {
        lemma_kept_marks(before@, gone, parts);
        if key_of(parts) == key_of(gone) {
            lemma_key_injective(parts, gone);
        }
        assert(held(before.index).contains(key_of(parts)) <==> has_mark(before@, parts));
    }
}

proof fn lemma_marked(before: Marks, after: Marks, target: TargetView)
    requires
        before.wf(),
        !has_mark(before@, target.path.parts),
        after@ == before@.push(target),
        held(after.index) == held(before.index).insert(key_of(target.path.parts)),
    ensures
        after.wf(),
{
    let items = after@;
    assert forall|i: int, j: int| 0 <= i < j < items.len() implies (
    #[trigger] items[i]).path.parts != (#[trigger] items[j]).path.parts by {
        assert(items[i] == before@[i]);
        if j < before@.len() {
            assert(items[j] == before@[j]);
        }
    }
    assert forall|parts: Seq<Part>| #[trigger]
        held(after.index).contains(key_of(parts)) <==> has_mark(after@, parts) by {
        assert(held(before.index).contains(key_of(parts)) <==> has_mark(before@, parts));
        if key_of(parts) == key_of(target.path.parts) {
            lemma_key_injective(parts, target.path.parts);
            assert(items[items.len() - 1].path.parts == parts);
        }
        if has_mark(before@, parts) {
            let i = choose|i: int|
                0 <= i < before@.len() && (#[trigger] before@[i]).path.parts == parts;
            assert(items[i].path.parts == parts);
        }
        if has_mark(after@, parts) {
            let i = choose|i: int|
                0 <= i < items.len() && (#[trigger] items[i]).path.parts == parts;
            if i < before@.len() {
                assert(before@[i].path.parts == parts);
            }
        }
    }
}

/// No path is marked twice, whatever was marked, unmarked and refreshed.
pub proof fn lemma_marked_once(marks: Marks)
    requires
        marks.wf(),
    ensures
        marked_once(marks@),
{
}

/// Toggling a path turns its mark and leaves all others as they are, in their
/// order; still no path is marked twice.
pub proof fn lemma_toggle(items: Seq<TargetView>, target: TargetView)
    requires
        marked_once(items),
    ensures
        ({
            let parts = target.path.parts;
            let after = toggled(items, target);
            &&& marked_once(after)
            &&& has_mark(after, parts) == !has_mark(items, parts)
            &&& forall|other: Seq<Part>|
                other != parts ==> #[trigger] has_mark(after, other) == has_mark(items, other)
            &&& lists::kept(after, other_than(parts)) == lists::kept(items, other_than(parts))
            &&& !has_mark(items, parts) ==> after == items.push(target)
        }),
{
    let parts = target.path.parts;
    let after = toggled(items, target);
    let fits = other_than(parts);
    if has_mark(items, parts) {
        lemma_kept_once(items, parts);
        lemma_kept_marks(items, parts, parts);
        lemma_kept_all(after, parts);
        assert forall|other: Seq<Part>| other != parts implies #[trigger] has_mark(after, other)
            == has_mark(items, other) by {
            lemma_kept_marks(items, parts, other);
        }
    } else {
        assert(after[after.len() - 1].path.parts == parts);
        assert(after.drop_last() =~= items);
        assert forall|i: int, j: int| 0 <= i < j < after.len() implies (
        #[trigger] after[i]).path.parts != (#[trigger] after[j]).path.parts by {
            assert(after[i] == items[i]);
            if j < items.len() {
                assert(after[j] == items[j]);
            }
        }
        assert forall|other: Seq<Part>| other != parts implies #[trigger] has_mark(after, other)
            == has_mark(items, other) by {
            if has_mark(items, other) {
                let i = choose|i: int|
                    0 <= i < items.len() && (#[trigger] items[i]).path.parts == other;
                assert(after[i].path.parts == other);
            }
            if has_mark(after, other) {
                let i = choose|i: int|
                    0 <= i < after.len() && (#[trigger] after[i]).path.parts == other;
                assert(items[i].path.parts == other);
            }
        }
    }
}

/// Marking a path and toggling it again leaves the marks as they were.
pub proof fn lemma_toggle_twice(items: Seq<TargetView>, target: TargetView)
    requires
        !has_mark(items, target.path.parts),
    ensures
        has_mark(toggled(items, target), target.path.parts),
        toggled(toggled(items, target), target) == items,
{
    let all = items.push(target);
    assert(all[all.len() - 1].path.parts == target.path.parts);
    assert(all.drop_last() =~= items);
    lemma_kept_all(items, target.path.parts);
}

// ---------------------------------------------------------------------
// Finding a path in a tree.
// ---------------------------------------------------------------------

/// How a component is shown.
pub open spec fn part_shown(platform: Platform, part: Part) -> Seq<char> {
    path::displayed(platform, path::part_text(47, part))
}

/// An entry called `name`.
pub open spec fn is_called(name: Seq<char>) -> spec_fn(NodeView) -> bool {
    |node: NodeView| node.name == name
}

/// The node the components lead to from `node`, one entry at a time.
pub open spec fn node_at(platform: Platform, node: NodeView, parts: Seq<Part>) -> Option<NodeView>
    decreases parts.len(),
{
    if parts.len() == 0 {
        Some(node)
    } else {
        match lists::first_where(node.children, is_called(part_shown(platform, parts[0]))) {
            Some(child) => node_at(platform, child, parts.skip(1)),
            None => None,
        }
    }
}

/// The node at `path` in the tree scanned at `root_path`.
pub open spec fn found(
    platform: Platform,
    root_path: Seq<Part>,
    root: NodeView,
    path: Seq<Part>,
) -> Option<NodeView> {
    if path::inside(path, root_path) {
        node_at(platform, root, path.skip(root_path.len() as int))
    } else {
        None
    }
}

/// The first entry of `node` called `name`.
fn child_called<'a>(node: &'a Node, name: &String) -> (r: Option<&'a Node>)
    ensures
        match r {
            Some(child) => lists::first_where(node@.children, is_called(name@)) == Some(child@),
            None => lists::first_where(node@.children, is_called(name@)) is None,
        },
{
    let ghost all = node@.children;
    let ghost fits = is_called(name@);
    let mut i: usize = 0;
    proof {
        tree::lemma_children(*node);
    }
    while i < node.children.len()
        invariant
            i <= node.children@.len(),
            all == node@.children,
            all.len() == node.children@.len(),
            fits == is_called(name@),
            forall|j: int|
                0 <= j < node.children@.len() ==> #[trigger] all[j] == node.children@[j]@,
            forall|j: int| 0 <= j < i ==> !fits(#[trigger] all[j]),
        decreases node.children@.len() - i,
    {
        assert(all[i as int] == node.children@[i as int]@);
        if node.children[i].name == *name {
            proof {
                lists::lemma_first_where_skip(all, i as int, fits);
            }
            return Some(&node.children[i]);
        }
        i += 1;
    }
    proof {
        lists::lemma_first_where_skip(all, i as int, fits);
    }
    None
}

/// Walk the tree to the node at an absolute path. Path components are
/// compared one at a time, so a name containing a path separator cannot
/// confuse it.
pub fn find<'a>(
    platform: Platform,
    root_path: &PathBuf,
    root: &'a Node,
    path: &PathBuf,
) -> (r: Option<&'a Node>)
    ensures
        match r {
            Some(node) => found(platform, root_path@.parts, root@, path@.parts) == Some(node@),
            None => found(platform, root_path@.parts, root@, path@.parts) is None,
        },
{
    let relative: Vec<Component> = match path.strip_prefix(root_path) {
        None => {
            return None;
        },
        Some(relative) => relative,
    };
    let ghost all = relative.deep_view();
    let mut node = root;
    let mut i: usize = 0;
    assert(all.skip(0) =~= all);
    while i < relative.len()
        invariant
            i <= relative@.len(),
            all == relative.deep_view(),
            found(platform, root_path@.parts, root@, path@.parts) == node_at(platform, root@, all),
            node_at(platform, root@, all) == node_at(platform, node@, all.skip(i as int)),
        decreases relative@.len() - i,
    {
        let ghost rest = all.skip(i as int);
        proof {
            assert(rest[0] == relative@[i as int]@);
            assert(rest.skip(1) =~= all.skip(i + 1));
        }
        let name = path::display_bytes(platform, relative[i].spelled(47).as_slice());
        match child_called(node, &name) {
            Some(child) => {
                node = child;
            },
            None => {
                return None;
            },
        }
        i += 1;
    }
    assert(all.skip(i as int) =~= Seq::<Part>::empty());
    Some(node)
}

/// A dotfile or dot-directory by name.
pub open spec fn dotted(parts: Seq<Part>) -> bool {
    match path::last_name(parts) {
        Some(name) => text::shown(name).len() > 0 && text::shown(name)[0] == '.',
        None => false,
    }
}

/// A dotfile or dot-directory by name, or, on Windows, an entry whose
/// hidden attribute is set.
pub fn is_hidden(path: &PathBuf, attribute: bool) -> (r: bool)
    ensures
        r == (dotted(path@.parts) || attribute),
{
    if let Some(name) = path.file_name() {
        let shown = text::chars_of(text::show(name.as_slice()).as_str());
        if shown.len() > 0 && shown[0] == '.' {
            return true;
        }
    }
    attribute
}

/// Shorten a path for display: `~` for the home directory, and the path with
/// the home prefix replaced when it is below it. The separator after `~` is
/// the platform's, so Windows shows `~\AppData\Local`.
pub open spec fn shortened(
    platform: Platform,
    path: PathView,
    home: Option<PathView>,
) -> Seq<char> {
    match home {
        Some(home) if path::inside(path.parts, home.parts) => {
            let rest = path.parts.skip(home.parts.len() as int);
            if rest.len() == 0 {
                "~"@
            } else {
                seq!['~', platform.separator_spec() as char] + path::displayed(
                    platform,
                    path::spelled_end(platform, path, rest.len()),
                )
            }
        },
        _ => path::displayed(platform, path.text),
    }
}

/// Shorten a path for display.
pub fn display_path(platform: Platform, path: &PathBuf, home: Option<&PathBuf>) -> (r: String)
    ensures
        r@ == shortened(
            platform,
            path@,
            match home {
                Some(home) => Some(home@),
                None => None,
            },
        ),
{
    if let Some(home) = home {
        if let Some(rest) = path.strip_prefix(home) {
            assert(rest.deep_view().len() == rest@.len());
            if rest.len() == 0 {
                return "~".to_owned();
            }
            let sep: u8 = platform.separator();
            let mut out = String::new();
            out.push('~');
            out.push(sep as char);
            let end = path.spelled_end(platform, rest.len());
            out.append(path::display_bytes(platform, end.as_slice()).as_str());
            assert(out@ =~= seq!['~', sep as char] + path::displayed(platform, end@));
            return out;
        }
    }
    path.display(platform)
}

// ---------------------------------------------------------------------
// Keeping marks up to date.
// ---------------------------------------------------------------------

/// A mark by a freshly scanned tree: its size and kind as they are now, or
/// no size where the path no longer exists.
pub open spec fn refreshed(
    platform: Platform,
    item: TargetView,
    root_path: Seq<Part>,
    root: NodeView,
    attribute: bool,
) -> TargetView {
    match found(platform, root_path, root, item.path.parts) {
        Some(node) => TargetView {
            path: item.path,
            bytes: node.bytes,
            is_dir: node.kind is Directory,
            hidden: dotted(item.path.parts) || attribute,
        },
        None => TargetView { bytes: 0, ..item },
    }
}

/// Whether the hidden attribute of the mark at `i` is set.
pub open spec fn attribute_at(attributes: Seq<bool>, i: int) -> bool {
    i < attributes.len() && attributes[i]
}

impl Default for Marks {
    fn default() -> (r: Marks)
        ensures
            r.wf(),
            r@ == Seq::<TargetView>::empty(),
    {
        Marks::new()
    }
}

impl Marks {
    /// Re-read sizes from a freshly scanned tree and count nothing for marks
    /// whose path no longer exists, so the tally never claims space that is
    /// already gone. On Windows `attributes` says of each mark whether its
    /// hidden attribute is set; elsewhere there are none.
    pub fn refresh(
        &mut self,
        platform: Platform,
        root_path: &PathBuf,
        root: &Node,
        metric: Metric,
        attributes: &[bool],
    )
        requires
            old(self).wf(),
        ensures
            final(self).wf(),
            final(self)@ == Seq::new(
                old(self)@.len(),
                |i: int|
                    refreshed(
                        platform,
                        old(self)@[i],
                        root_path@.parts,
                        root@,
                        attribute_at(attributes@, i),
                    ),
            ),
    {
        let ghost before = *self;
        let mut resolved: Vec<Target> = Vec::new();
        let mut i: usize = 0;
        while i < self.items.len()
            invariant
                *self == before,
                i <= self.items@.len(),
                resolved@.len() == i,
                forall|k: int|
                    0 <= k < i ==> (#[trigger] resolved@[k])@ == refreshed(
                        platform,
                        before.items@[k]@,
                        root_path@.parts,
                        root@,
                        attribute_at(attributes@, k),
                    ),
            decreases self.items@.len() - i,
        {
            let item = &self.items[i];
            let attribute: bool = i < attributes.len() && attributes[i];
            match find(platform, root_path, root, &item.path) {
                Some(node) => {
                    resolved.push(
                        Target {
                            bytes: node.value(metric),
                            is_dir: node.is_dir(),
                            hidden: is_hidden(&item.path, attribute),
                            path: item.path.clone(),
                        },
                    );
                },
                None => {
                    resolved.push(
                        Target {
                            bytes: 0,
                            is_dir: item.is_dir,
                            hidden: item.hidden,
                            path: item.path.clone(),
                        },
                    );
                },
            }
            i += 1;
        }
        self.items = resolved;
        proof {
            lemma_refreshed(before, *self);
        }
    }
}

proof fn lemma_refreshed(before: Marks, after: Marks)
    requires
        before.wf(),
        after.index == before.index,
        after@.len() == before@.len(),
        forall|i: int|
            0 <= i < before@.len() ==> (#[trigger] after@[i]).path == before@[i].path,
    ensures
        after.wf(),
{
    let items = after@;
    assert forall|i: int, j: int| 0 <= i < j < items.len() implies (
    #[trigger] items[i]).path.parts != (#[trigger] items[j]).path.parts by {
        assert(items[i].path == before@[i].path && items[j].path == before@[j].path);
    }
    assert forall|parts: Seq<Part>| #[trigger]
        held(after.index).contains(key_of(parts)) <==> has_mark(after@, parts) by {
        assert(held(before.index).contains(key_of(parts)) <==> has_mark(before@, parts));
        if has_mark(before@, parts) {
            let i = choose|i: int|
                0 <= i < before@.len() && (#[trigger] before@[i]).path.parts == parts;
            assert(items[i].path.parts == parts);
        }
        if has_mark(after@, parts) {
            let i = choose|i: int|
                0 <= i < items.len() && (#[trigger] items[i]).path.parts == parts;
            assert(before@[i].path.parts == parts);
        }
    }
}

/// A fresh scan keeps every mark, in its place and by its path, and counts
/// nothing for a path that is gone.
pub proof fn lemma_refresh_keeps(
    platform: Platform,
    item: TargetView,
    root_path: Seq<Part>,
    root: NodeView,
    attribute: bool,
)
    ensures
        refreshed(platform, item, root_path, root, attribute).path == item.path,
        found(platform, root_path, root, item.path.parts) is None ==> refreshed(
            platform,
            item,
            root_path,
            root,
            attribute,
        ).bytes == 0,
{
}

/// The path of a scan's root leads to its own node, and a path outside it
/// to none.
pub proof fn lemma_find_root(platform: Platform, root_path: Seq<Part>, root: NodeView, path: Seq<Part>)
    ensures
        found(platform, root_path, root, root_path) == Some(root),
        !path::inside(path, root_path) ==> found(platform, root_path, root, path) is None,
{
    assert(root_path.take(root_path.len() as int) =~= root_path);
    assert(root_path.skip(root_path.len() as int) =~= Seq::<Part>::empty());
}

} // verus!
