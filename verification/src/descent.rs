//! The way down to a target that is deleted: which directories are opened,
//! one component at a time, and what is said when one of them cannot be.
//!
//! The scan does not follow links, so no marked path has one between the
//! root and itself; one that does now was put there after the scan, and
//! following it would remove whatever it points to. So every step below the
//! root is opened without following a link, and on Linux every step to the
//! root too. Elsewhere links above the root are followed: they are how the
//! user named it, and on macOS `/tmp` and `/var` are links themselves.

use vstd::prelude::*;

use crate::path;
use crate::path::{Component, Part, PathBuf, PathView};
use crate::platform::Platform;
use crate::text;

verus! {

/// One directory to open on the way down.
#[derive(Debug)]
pub enum Step {
    /// Open the top of the filesystem.
    Top,
    /// Open the scanned root as it is spelled, following links.
    Root,
    /// Open this entry of the directory before, on the way to the scanned
    /// root, not following a link.
    Above(Vec<u8>),
    /// Open this entry of the directory before, below the scanned root, not
    /// following a link.
    Below(Vec<u8>),
    /// Fail: the scanned root is not an absolute, normalized path.
    BadRoot,
    /// Fail: the target is not an absolute, normalized path.
    BadTarget,
}

/// What a [`Step`] stands for.
pub enum StepView {
    Top,
    Root,
    Above(Seq<u8>),
    Below(Seq<u8>),
    BadRoot,
    BadTarget,
}

impl View for Step {
    type V = StepView;

    open spec fn view(&self) -> StepView {
        match *self {
            Step::Top => StepView::Top,
            Step::Root => StepView::Root,
            Step::Above(name) => StepView::Above(name@),
            Step::Below(name) => StepView::Below(name@),
            Step::BadRoot => StepView::BadRoot,
            Step::BadTarget => StepView::BadTarget,
        }
    }
}

impl DeepView for Step {
    type V = StepView;

    open spec fn deep_view(&self) -> StepView {
        self@
    }
}

impl Clone for Step {
    fn clone(&self) -> (r: Self)
        ensures
            r@ == self@,
    {
        match self {
            Step::Top => Step::Top,
            Step::Root => Step::Root,
            Step::Above(name) => Step::Above(path::copy_bytes(name)),
            Step::Below(name) => Step::Below(path::copy_bytes(name)),
            Step::BadRoot => Step::BadRoot,
            Step::BadTarget => Step::BadTarget,
        }
    }
}

/// The steps to a root with these components, from the top: one per name,
/// once the root of the path was seen.
pub open spec fn steps_above(parts: Seq<Part>, absolute: bool) -> Seq<StepView>
    decreases parts.len(),
{
    if parts.len() == 0 {
        if absolute {
            seq![]
        } else {
            seq![StepView::BadRoot]
        }
    } else {
        match parts[0] {
            Part::Root if !absolute => steps_above(parts.skip(1), true),
            Part::Name(name) if absolute => seq![StepView::Above(name)] + steps_above(
                parts.skip(1),
                true,
            ),
            _ => seq![StepView::BadRoot],
        }
    }
}

/// The steps from the root to a directory with these components below it.
pub open spec fn steps_below(parts: Seq<Part>) -> Seq<StepView>
    decreases parts.len(),
{
    if parts.len() == 0 {
        seq![]
    } else {
        match parts[0] {
            Part::Name(name) => seq![StepView::Below(name)] + steps_below(parts.skip(1)),
            _ => seq![StepView::BadTarget],
        }
    }
}

/// The steps that open the scanned root.
pub open spec fn root_steps(platform: Platform, root: Seq<Part>) -> Seq<StepView> {
    if platform is Linux {
        seq![StepView::Top] + steps_above(root, false)
    } else {
        seq![StepView::Root]
    }
}

/// The way to the directory holding the target: the steps, or why there are
/// none.
pub open spec fn way_to(platform: Platform, path: PathView, root: PathView) -> Result<
    Seq<StepView>,
    Seq<char>,
> {
    if path::last_name(path.parts) is None {
        Err(not_marked(path))
    } else if !path::inside(path.parts.drop_last(), root.parts) {
        Err(
            text::shown(path.text) + " is not inside the scanned root "@ + text::shown(root.text),
        )
    } else {
        Ok(
            root_steps(platform, root.parts) + steps_below(
                path.parts.drop_last().skip(root.parts.len() as int),
            ),
        )
    }
}

/// What is said of a target that no scan could have shown.
pub open spec fn not_marked(path: PathView) -> Seq<char> {
    text::shown(path.text) + " is not an absolute, normalized path"@
}

/// What is said of a target that no scan could have shown.
pub fn say_not_marked(path: &PathBuf) -> (r: String)
    ensures
        r@ == not_marked(path@),
{
    let mut reason = path.display(Platform::Linux);
    reason.append(" is not an absolute, normalized path");
    reason
}

/// The steps that open the scanned root. On Linux it was canonicalized
/// before scanning, so it is walked from the top without following links: a
/// replaced root or ancestor cannot redirect removal outside the tree that
/// was scanned.
pub fn open_root(platform: Platform, root: &PathBuf) -> (r: Vec<Step>)
    ensures
        r.deep_view() == root_steps(platform, root@.parts),
{
    let mut steps: Vec<Step> = Vec::new();
    match platform {
        Platform::Linux => {},
        _ => {
            steps.push(Step::Root);
            assert(steps.deep_view() =~= seq![StepView::Root]);
            return steps;
        },
    }
    steps.push(Step::Top);
    let ghost all = root@.parts;
    let ghost whole = root_steps(platform, all);
    let mut absolute = false;
    let mut i: usize = 0;
    assert(all.skip(0) =~= all);
    assert(steps.deep_view() =~= seq![StepView::Top]);
    while i < root.parts.len()
        invariant
            i <= root.parts@.len(),
            all == root@.parts,
            whole == root_steps(platform, all),
            whole == steps.deep_view() + steps_above(all.skip(i as int), absolute),
        decreases root.parts@.len() - i,
    {
        let ghost rest = all.skip(i as int);
        let ghost before = steps.deep_view();
        proof {
            assert(rest[0] == root.parts@[i as int]@);
            assert(rest.skip(1) =~= all.skip(i + 1));
        }
        match &root.parts[i] {
            Component::RootDir if !absolute => {
                absolute = true;
            },
            Component::Normal(name) if absolute => {
                steps.push(Step::Above(path::copy_bytes(name)));
                assert(steps.deep_view() =~= before + seq![StepView::Above(name@)]);
                assert(before + (seq![StepView::Above(name@)] + steps_above(all.skip(i + 1), true))
                    =~= steps.deep_view() + steps_above(all.skip(i + 1), true));
            },
            _ => {
                steps.push(Step::BadRoot);
                assert(steps.deep_view() =~= before + seq![StepView::BadRoot]);
                return steps;
            },
        }
        i += 1;
    }
    let ghost before = steps.deep_view();
    assert(all.skip(i as int) =~= Seq::<Part>::empty());
    if !absolute {
        steps.push(Step::BadRoot);
        assert(steps.deep_view() =~= before + seq![StepView::BadRoot]);
    } else {
        assert(before + Seq::<StepView>::empty() =~= before);
    }
    steps
}

/// The way to the directory holding `path`, and `path`'s own name in it.
pub fn open_parent(platform: Platform, path: &PathBuf, root: &PathBuf) -> (r: Result<
    (Vec<Step>, Vec<u8>),
    String,
>)
    ensures
        match r {
            Ok((steps, name)) => way_to(platform, path@, root@) == Ok::<Seq<StepView>, Seq<char>>(
                steps.deep_view(),
            ) && path::last_name(path@.parts) == Some(name@),
            Err(reason) => way_to(platform, path@, root@) == Err::<Seq<StepView>, Seq<char>>(
                reason@,
            ),
        },
{
    let name = match path.file_name() {
        None => {
            return Err(say_not_marked(path));
        },
        Some(name) => path::copy_bytes(name),
    };
    let mut parent = path.clone();
    parent.parts.pop();
    assert(parent@.parts =~= path@.parts.drop_last());
    let below = match parent.strip_prefix(root) {
        None => {
            let mut reason = path.display(Platform::Linux);
            reason.append(" is not inside the scanned root ");
            reason.append(root.display(Platform::Linux).as_str());
            return Err(reason);
        },
        Some(below) => below,
    };
    let mut steps = open_root(platform, root);
    let ghost lead = steps.deep_view();
    let ghost all = below.deep_view();
    let mut i: usize = 0;
    assert(all.skip(0) =~= all);
    while i < below.len()
        invariant
            i <= below@.len(),
            all == below.deep_view(),
            lead + steps_below(all) == steps.deep_view() + steps_below(all.skip(i as int)),
            way_to(platform, path@, root@) == Ok::<Seq<StepView>, Seq<char>>(
                lead + steps_below(all),
            ),
            path::last_name(path@.parts) == Some(name@),
        decreases below@.len() - i,
    {
        let ghost rest = all.skip(i as int);
        let ghost before = steps.deep_view();
        proof {
            assert(rest[0] == below@[i as int]@);
            assert(rest.skip(1) =~= all.skip(i + 1));
        }
        match &below[i] {
            Component::Normal(part) => {
                steps.push(Step::Below(path::copy_bytes(part)));
                assert(steps.deep_view() =~= before + seq![StepView::Below(part@)]);
                assert(before + (seq![StepView::Below(part@)] + steps_below(all.skip(i + 1)))
                    =~= steps.deep_view() + steps_below(all.skip(i + 1)));
            },
            _ => {
                steps.push(Step::BadTarget);
                assert(steps.deep_view() =~= before + seq![StepView::BadTarget]);
                return Ok((steps, name));
            },
        }
        i += 1;
    }
    assert(all.skip(i as int) =~= Seq::<Part>::empty());
    assert(steps.deep_view() + Seq::<StepView>::empty() =~= steps.deep_view());
    Ok((steps, name))
}

/// What is said when the entry `part` below the root, on the way to `path`,
/// is a link now, or no directory.
pub open spec fn changed_since(path: PathView, part: Seq<u8>) -> Seq<char> {
    text::shown(path.text) + " changed since the scan: "@ + text::shown(part)
        + " is no longer a directory, so nothing was removed"@
}

/// What is said when the entry `part` below the root, on the way to `path`,
/// is a link now, or no directory.
pub fn say_changed(path: &PathBuf, part: &[u8]) -> (r: String)
    ensures
        r@ == changed_since(path@, part@),
{
    let mut reason = path.display(Platform::Linux);
    reason.append(" changed since the scan: ");
    reason.append(text::show(part).as_str());
    reason.append(" is no longer a directory, so nothing was removed");
    reason
}

// ---------------------------------------------------------------------
// What holds of every way down.
// ---------------------------------------------------------------------

/// The names the steps open, in order.
pub open spec fn step_names(steps: Seq<StepView>) -> Seq<Part>
    decreases steps.len(),
{
    if steps.len() == 0 {
        seq![]
    } else {
        let rest = step_names(steps.skip(1));
        match steps[0] {
            StepView::Above(name) | StepView::Below(name) => seq![Part::Name(name)] + rest,
            _ => rest,
        }
    }
}

/// None of the steps fails by itself.
pub open spec fn sound_steps(steps: Seq<StepView>) -> bool {
    forall|i: int|
        0 <= i < steps.len() ==> (#[trigger] steps[i]) !is BadRoot && steps[i] !is BadTarget
}

/// The components of an absolute path without dots.
pub open spec fn is_plain(parts: Seq<Part>) -> bool {
    &&& parts.len() > 0
    &&& parts[0] is Root
    &&& forall|i: int| 0 < i < parts.len() ==> (#[trigger] parts[i]) is Name
}

proof fn lemma_steps_above(parts: Seq<Part>)
    requires
        forall|i: int| 0 <= i < parts.len() ==> (#[trigger] parts[i]) is Name,
    ensures
        step_names(steps_above(parts, true)) == parts,
        sound_steps(steps_above(parts, true)),
    decreases parts.len(),
{
    let steps = steps_above(parts, true);
    if parts.len() > 0 {
        let rest = parts.skip(1);
        assert forall|i: int| 0 <= i < rest.len() implies (#[trigger] rest[i]) is Name by {
            assert(rest[i] == parts[i + 1]);
        }
        lemma_steps_above(rest);
        assert(parts[0] is Name);
        assert(steps.skip(1) =~= steps_above(rest, true));
        assert(seq![parts[0]] + rest =~= parts);
        assert forall|i: int| 0 <= i < steps.len() implies (#[trigger] steps[i]) !is BadRoot
            && steps[i] !is BadTarget by {
            if i > 0 {
                assert(steps[i] == steps_above(rest, true)[i - 1]);
            }
        }
    } else {
        assert(step_names(steps) =~= parts);
    }
}

proof fn lemma_steps_below(parts: Seq<Part>)
    requires
        forall|i: int| 0 <= i < parts.len() ==> (#[trigger] parts[i]) is Name,
    ensures
        step_names(steps_below(parts)) == parts,
        sound_steps(steps_below(parts)),
    decreases parts.len(),
{
    let steps = steps_below(parts);
    if parts.len() > 0 {
        let rest = parts.skip(1);
        assert forall|i: int| 0 <= i < rest.len() implies (#[trigger] rest[i]) is Name by {
            assert(rest[i] == parts[i + 1]);
        }
        lemma_steps_below(rest);
        assert(parts[0] is Name);
        assert(steps.skip(1) =~= steps_below(rest));
        assert(seq![parts[0]] + rest =~= parts);
        assert forall|i: int| 0 <= i < steps.len() implies (#[trigger] steps[i]) !is BadRoot
            && steps[i] !is BadTarget by {
            if i > 0 {
                assert(steps[i] == steps_below(rest)[i - 1]);
            }
        }
    } else {
        assert(step_names(steps) =~= parts);
    }
}

proof fn lemma_step_names_join(a: Seq<StepView>, b: Seq<StepView>)
    ensures
        step_names(a + b) == step_names(a) + step_names(b),
    decreases a.len(),
{
    if a.len() == 0 {
        assert(a + b =~= b);
        assert(step_names(a) + step_names(b) =~= step_names(b));
    } else {
        assert((a + b).skip(1) =~= a.skip(1) + b);
        assert((a + b)[0] == a[0]);
        lemma_step_names_join(a.skip(1), b);
        let rest = step_names(a.skip(1)) + step_names(b);
        match a[0] {
            StepView::Above(name) | StepView::Below(name) => {
                assert(seq![Part::Name(name)] + rest =~= seq![Part::Name(name)] + step_names(
                    a.skip(1),
                ) + step_names(b));
            },
            _ => {},
        }
    }
}

/// On Linux the way to a target inside the root is from the top of the
/// filesystem, and opens exactly the directories the target is in, one
/// after another: nothing is skipped, and no link is followed.
pub proof fn lemma_way_is_the_path(path: PathView, root: PathView)
    requires
        is_plain(path.parts),
        is_plain(root.parts),
        path.parts != root.parts,
        path::inside(path.parts, root.parts),
    ensures
        way_to(Platform::Linux, path, root) matches Ok(steps) && {
            &&& steps.len() > 0
            &&& steps[0] is Top
            &&& forall|i: int|
                0 < i < steps.len() ==> (#[trigger] steps[i]) is Above || steps[i] is Below
            &&& step_names(steps) == path.parts.drop_last().skip(1)
        },
{
    let parts = path.parts;
    let n = root.parts.len() as int;
    if parts.len() == n {
        assert(parts.take(n) =~= parts);
    }
    assert(parts.len() > n);
    assert(parts[parts.len() - 1] is Name);
    let parent = parts.drop_last();
    assert(parent.take(n) =~= parts.take(n));
    let below = parent.skip(n);
    let above = root.parts.skip(1);
    assert forall|i: int| 0 <= i < below.len() implies (#[trigger] below[i]) is Name by {
        assert(below[i] == parts[i + n]);
    }
    assert forall|i: int| 0 <= i < above.len() implies (#[trigger] above[i]) is Name by {
        assert(above[i] == root.parts[i + 1]);
    }
    lemma_steps_above(above);
    lemma_steps_below(below);
    let up = steps_above(above, true);
    let down = steps_below(below);
    assert(steps_above(root.parts, false) == up);
    let steps = seq![StepView::Top] + up + down;
    assert(way_to(Platform::Linux, path, root) == Ok::<Seq<StepView>, Seq<char>>(steps));
    lemma_step_names_join(seq![StepView::Top] + up, down);
    lemma_step_names_join(seq![StepView::Top], up);
    assert(seq![StepView::Top].skip(1) =~= Seq::<StepView>::empty());
    assert(step_names(Seq::<StepView>::empty()) =~= Seq::<Part>::empty());
    assert(step_names(seq![StepView::Top]) =~= Seq::<Part>::empty());
    assert(Seq::<Part>::empty() + above =~= above);
    assert(above + below =~= parent.skip(1)) by {
        assert forall|i: int| 0 <= i < above.len() implies above[i] == #[trigger] parent.skip(
            1,
        )[i] by {
            assert(parts.take(n)[i + 1] == root.parts[i + 1]);
        }
    }
    lemma_steps_kinds(above, below);
    assert forall|i: int| 0 < i < steps.len() implies (#[trigger] steps[i]) is Above
        || steps[i] is Below by {
        if i - 1 < up.len() {
            assert(steps[i] == up[i - 1]);
        } else {
            assert(steps[i] == down[i - 1 - up.len()]);
        }
    }
}

proof fn lemma_steps_kinds(above: Seq<Part>, below: Seq<Part>)
    requires
        forall|i: int| 0 <= i < above.len() ==> (#[trigger] above[i]) is Name,
        forall|i: int| 0 <= i < below.len() ==> (#[trigger] below[i]) is Name,
    ensures
        forall|i: int|
            0 <= i < steps_above(above, true).len() ==> (#[trigger] steps_above(above, true)[i])
                is Above,
        forall|i: int|
            0 <= i < steps_below(below).len() ==> (#[trigger] steps_below(below)[i]) is Below,
    decreases above.len() + below.len(),
{
    if above.len() > 0 {
        let rest = above.skip(1);
        assert forall|i: int| 0 <= i < rest.len() implies (#[trigger] rest[i]) is Name by {
            assert(rest[i] == above[i + 1]);
        }
        lemma_steps_kinds(rest, below);
        assert(above[0] is Name);
    } else if below.len() > 0 {
        let rest = below.skip(1);
        assert forall|i: int| 0 <= i < rest.len() implies (#[trigger] rest[i]) is Name by {
            assert(rest[i] == below[i + 1]);
        }
        lemma_steps_kinds(above, rest);
        assert(below[0] is Name);
    }
}

/// Elsewhere the way starts with the scanned root as it is spelled, and from
/// there opens exactly the directories between it and the target, one after
/// another: below the root nothing is skipped, and no link is followed.
pub proof fn lemma_way_below_the_root(platform: Platform, path: PathView, root: PathView)
    requires
        !(platform is Linux),
        path.parts != root.parts,
        path::inside(path.parts, root.parts),
        forall|i: int|
            root.parts.len() <= i < path.parts.len() ==> (#[trigger] path.parts[i]) is Name,
    ensures
        way_to(platform, path, root) matches Ok(steps) && {
            &&& steps.len() > 0
            &&& steps[0] is Root
            &&& forall|i: int| 0 < i < steps.len() ==> (#[trigger] steps[i]) is Below
            &&& step_names(steps) == path.parts.drop_last().skip(root.parts.len() as int)
        },
{
    let parts = path.parts;
    let n = root.parts.len() as int;
    if parts.len() == n {
        assert(parts.take(n) =~= parts);
    }
    assert(parts[parts.len() - 1] is Name);
    let parent = parts.drop_last();
    assert(parent.take(n) =~= parts.take(n));
    let below = parent.skip(n);
    assert forall|i: int| 0 <= i < below.len() implies (#[trigger] below[i]) is Name by {
        assert(below[i] == parts[i + n]);
    }
    lemma_steps_below(below);
    lemma_steps_kinds(Seq::<Part>::empty(), below);
    let down = steps_below(below);
    let steps = seq![StepView::Root] + down;
    assert(way_to(platform, path, root) == Ok::<Seq<StepView>, Seq<char>>(steps));
    lemma_step_names_join(seq![StepView::Root], down);
    assert(seq![StepView::Root].skip(1) =~= Seq::<StepView>::empty());
    assert(step_names(Seq::<StepView>::empty()) =~= Seq::<Part>::empty());
    assert(step_names(seq![StepView::Root]) =~= Seq::<Part>::empty());
    assert(Seq::<Part>::empty() + below =~= below);
    assert forall|i: int| 0 < i < steps.len() implies (#[trigger] steps[i]) is Below by {
        assert(steps[i] == down[i - 1]);
    }
}

} // verus!
