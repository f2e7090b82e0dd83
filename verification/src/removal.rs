//! What is removed: marked paths, judged, and the plan that follows.
//!
//! Three things matter here, in this order: never remove something the user
//! did not point at, never descend into a different filesystem, and always
//! be able to say what happened.

use vstd::prelude::*;

use crate::guards;
use crate::judge;
use crate::judge::{Facts, FactsView, Home, HomeView};
use crate::mounts;
use crate::path;
use crate::path::{PathBuf, PathView};
use crate::platform::Platform;
use crate::system::{SystemTree, TreeView};

pub use crate::deletion::remove_permanently;
pub use crate::guards::normalize;
pub use crate::judge::is_mount_point;
pub use crate::mounts::prime_mount_points;
pub use crate::trash::{detect_trash_backend, move_to_trash, TrashBackend};
pub use crate::worker::{RemovalEvent, RemovalHandle};
pub use crate::xdg::{percent_encode, trash_into};

verus! {

// ---------------------------------------------------------------------
// Targets and modes.
// ---------------------------------------------------------------------

/// One path the user asked to remove.
#[derive(Debug)]
pub struct Target {
    pub path: PathBuf,
    /// Bytes measured when the path was marked; used for the projection.
    pub bytes: u64,
    pub is_dir: bool,
    pub hidden: bool,
}

/// What a [`Target`] stands for.
pub struct TargetView {
    pub path: PathView,
    pub bytes: u64,
    pub is_dir: bool,
    pub hidden: bool,
}

impl View for Target {
    type V = TargetView;

    open spec fn view(&self) -> TargetView {
        TargetView {
            path: self.path@,
            bytes: self.bytes,
            is_dir: self.is_dir,
            hidden: self.hidden,
        }
    }
}

impl DeepView for Target {
    type V = TargetView;

    open spec fn deep_view(&self) -> TargetView {
        self@
    }
}

impl Clone for Target {
    fn clone(&self) -> (r: Self)
        ensures
            r@ == self@,
    {
        Target {
            path: self.path.clone(),
            bytes: self.bytes,
            is_dir: self.is_dir,
            hidden: self.hidden,
        }
    }
}

/// Two targets are equal when their paths have the same components and all
/// else is the same.
impl PartialEq for Target {
    fn eq(&self, other: &Target) -> (r: bool) {
        self.path.same(&other.path) && self.bytes == other.bytes && self.is_dir == other.is_dir
            && self.hidden == other.hidden
    }
}

impl vstd::std_specs::cmp::PartialEqSpecImpl for Target {
    open spec fn obeys_eq_spec() -> bool {
        true
    }

    open spec fn eq_spec(&self, other: &Target) -> bool {
        &&& self@.path.parts == other@.path.parts
        &&& self.bytes == other.bytes
        &&& self.is_dir == other.is_dir
        &&& self.hidden == other.hidden
    }
}

impl Eq for Target {

}

/// How a removal should be carried out.
#[derive(Clone, Copy, Debug, PartialEq, Eq, Structural)]
pub enum RemovalMode {
    /// Delete now. Not recoverable.
    Permanent,
    /// Move to the desktop trash so the removal can be undone.
    Trash,
}

impl Default for RemovalMode {
    fn default() -> (r: Self)
        ensures
            r == RemovalMode::Permanent,
    {
        RemovalMode::Permanent
    }
}

impl RemovalMode {
    pub fn label(self) -> (r: &'static str)
        ensures
            r@ == match self {
                RemovalMode::Permanent => "Delete permanently"@,
                RemovalMode::Trash => "Move to trash"@,
            },
    {
        match self {
            RemovalMode::Permanent => "Delete permanently",
            RemovalMode::Trash => "Move to trash",
        }
    }

    pub fn detail(self) -> (r: &'static str)
        ensures
            r@ == match self {
                RemovalMode::Permanent => "rm -rf: unrecoverable"@,
                RemovalMode::Trash => "recoverable until the trash is emptied"@,
            },
    {
        match self {
            RemovalMode::Permanent => "rm -rf: unrecoverable",
            RemovalMode::Trash => "recoverable until the trash is emptied",
        }
    }
}

// ---------------------------------------------------------------------
// Plans.
// ---------------------------------------------------------------------

/// A target that will not be touched, and why.
#[derive(Debug, PartialEq, Eq)]
pub struct Blocked {
    pub path: PathBuf,
    pub reason: String,
}

/// What a [`Blocked`] stands for.
pub struct BlockedView {
    pub path: PathView,
    pub reason: Seq<char>,
}

impl View for Blocked {
    type V = BlockedView;

    open spec fn view(&self) -> BlockedView {
        BlockedView { path: self.path@, reason: self.reason@ }
    }
}

impl DeepView for Blocked {
    type V = BlockedView;

    open spec fn deep_view(&self) -> BlockedView {
        self@
    }
}

impl Clone for Blocked {
    fn clone(&self) -> (r: Self)
        ensures
            r@ == self@,
    {
        Blocked { path: self.path.clone(), reason: self.reason.clone() }
    }
}

/// The work a [`RemovalMode`] will actually do.
#[derive(Debug)]
pub struct Plan {
    /// Targets to act on, with any target contained in another removed first.
    pub targets: Vec<Target>,
    /// Marked paths covered by a target above; reported, not acted on.
    pub covered: Vec<Target>,
    /// Marked paths that must not be touched.
    pub blocked: Vec<Blocked>,
    /// The scanned root the targets were judged against.
    pub root: PathBuf,
}

/// What a [`Plan`] stands for.
pub struct PlanView {
    pub targets: Seq<TargetView>,
    pub covered: Seq<TargetView>,
    pub blocked: Seq<BlockedView>,
    pub root: PathView,
}

impl View for Plan {
    type V = PlanView;

    open spec fn view(&self) -> PlanView {
        PlanView {
            targets: self.targets.deep_view(),
            covered: self.covered.deep_view(),
            blocked: self.blocked.deep_view(),
            root: self.root@,
        }
    }
}

/// The bytes of `targets`, together.
pub open spec fn total_bytes(targets: Seq<TargetView>) -> nat
    decreases targets.len(),
{
    if targets.len() == 0 {
        0
    } else {
        total_bytes(targets.drop_last()) + targets.last().bytes as nat
    }
}

/// The bytes of some of `targets` are no more than those of all.
pub proof fn lemma_total_bytes_take(targets: Seq<TargetView>, n: int)
    requires
        0 <= n <= targets.len(),
    ensures
        total_bytes(targets.take(n)) <= total_bytes(targets),
    decreases targets.len() - n,
{
    if n < targets.len() {
        assert(targets.take(n + 1).drop_last() =~= targets.take(n));
        lemma_total_bytes_take(targets, n + 1);
    } else {
        assert(targets.take(n) =~= targets);
    }
}

/// The bytes of `targets`, together.
pub fn sum_bytes(targets: &[Target]) -> (r: u64)
    requires
        total_bytes(targets.deep_view()) <= u64::MAX,
    ensures
        r == total_bytes(targets.deep_view()),
{
    let ghost all = targets.deep_view();
    let mut sum: u64 = 0;
    let mut i: usize = 0;
    assert(all.take(0) =~= Seq::<TargetView>::empty());
    while i < targets.len()
        invariant
            i <= targets@.len(),
            all == targets.deep_view(),
            sum == total_bytes(all.take(i as int)),
            total_bytes(all) <= u64::MAX,
        decreases targets@.len() - i,
    {
        proof {
            assert(all.take(i + 1).drop_last() =~= all.take(i as int));
            assert(all.take(i + 1).last() == targets@[i as int]@);
            lemma_total_bytes_take(all, i + 1);
        }
        sum = sum + targets[i].bytes;
        i += 1;
    }
    assert(all.take(all.len() as int) =~= all);
    sum
}

/// A copy of a list of targets.
pub fn copy_targets(targets: &[Target]) -> (r: Vec<Target>)
    ensures
        r.deep_view() == targets.deep_view(),
{
    let mut out: Vec<Target> = Vec::new();
    let mut i: usize = 0;
    while i < targets.len()
        invariant
            i <= targets@.len(),
            out@.len() == i,
            forall|k: int| 0 <= k < i ==> (#[trigger] out@[k])@ == targets@[k]@,
        decreases targets@.len() - i,
    {
        out.push(targets[i].clone());
        i += 1;
    }
    assert(out.deep_view() =~= targets.deep_view());
    out
}

impl Clone for Plan {
    fn clone(&self) -> (r: Self)
        ensures
            r@ == self@,
    {
        let mut blocked: Vec<Blocked> = Vec::new();
        let mut i: usize = 0;
        while i < self.blocked.len()
            invariant
                i <= self.blocked@.len(),
                blocked@.len() == i,
                forall|k: int| 0 <= k < i ==> (#[trigger] blocked@[k])@ == self.blocked@[k]@,
            decreases self.blocked@.len() - i,
        {
            blocked.push(self.blocked[i].clone());
            i += 1;
        }
        assert(blocked.deep_view() =~= self.blocked.deep_view());
        Plan {
            targets: copy_targets(self.targets.as_slice()),
            covered: copy_targets(self.covered.as_slice()),
            blocked,
            root: self.root.clone(),
        }
    }
}

impl Default for Plan {
    fn default() -> (r: Plan)
        ensures
            r.targets@.len() == 0,
            r.covered@.len() == 0,
            r.blocked@.len() == 0,
            r.root@ == path::unix_path(seq![]),
    {
        Plan {
            targets: Vec::new(),
            covered: Vec::new(),
            blocked: Vec::new(),
            root: PathBuf::unix(Vec::new()),
        }
    }
}

impl Plan {
    /// The bytes the plan's targets held when they were marked.
    pub fn bytes(&self) -> (r: u64)
        requires
            total_bytes(self@.targets) <= u64::MAX,
        ensures
            r == total_bytes(self@.targets),
    {
        sum_bytes(self.targets.as_slice())
    }

    /// Whether there is nothing to do.
    pub fn is_empty(&self) -> (r: bool)
        ensures
            r == (self@.targets.len() == 0),
    {
        self.targets.len() == 0
    }
}

/// A marked path, and what the disk says of it.
#[derive(Debug)]
pub struct Candidate {
    pub target: Target,
    /// What the disk says of the target's path, normalized.
    pub facts: Facts,
}

/// What a [`Candidate`] stands for.
pub struct CandidateView {
    pub target: TargetView,
    pub facts: FactsView,
}

impl View for Candidate {
    type V = CandidateView;

    open spec fn view(&self) -> CandidateView {
        CandidateView { target: self.target@, facts: self.facts@ }
    }
}

impl DeepView for Candidate {
    type V = CandidateView;

    open spec fn deep_view(&self) -> CandidateView {
        self@
    }
}

/// What is known of the machine when targets are judged.
#[derive(Debug)]
pub struct World {
    pub platform: Platform,
    /// The mount points as guard keys, or why they are not known.
    pub mounts: Result<Vec<PathBuf>, String>,
    pub home: Option<Home>,
    /// The scanned root with every link resolved.
    pub real_root: Option<PathBuf>,
    pub trees: Vec<SystemTree>,
}

/// What a [`World`] stands for.
pub struct WorldView {
    pub platform: Platform,
    pub mounts: mounts::MountsView,
    pub home: Option<HomeView>,
    pub real_root: Option<PathView>,
    pub trees: Seq<TreeView>,
}

impl View for World {
    type V = WorldView;

    open spec fn view(&self) -> WorldView {
        WorldView {
            platform: self.platform,
            mounts: mounts::mounts_view(self.mounts),
            home: match self.home {
                Some(home) => Some(home@),
                None => None,
            },
            real_root: judge::path_view(self.real_root),
            trees: self.trees.deep_view(),
        }
    }
}

/// Why the normalized `path` is not acted on in a scan of the normalized
/// `root`, if it is not. Without a mount table nothing is.
pub open spec fn objection(
    world: WorldView,
    path: PathView,
    root: PathView,
    facts: FactsView,
) -> Option<Seq<char>> {
    match world.mounts {
        Err(reason) => Some(reason),
        Ok(mounts) => match judge::refusal(
            world.platform,
            path,
            root,
            world.home,
            mounts,
            world.trees,
            facts,
        ) {
            Some(reason) => Some(reason),
            None => judge::link_refusal(
                world.platform,
                path,
                root,
                world.real_root,
                world.home,
                facts.real_parent,
            ),
        },
    }
}

/// A target by its normalized path.
pub open spec fn normalized(platform: Platform, target: TargetView) -> TargetView {
    TargetView { path: guards::clean(platform, target.path), ..target }
}

/// Why a candidate is not acted on, if it is not.
pub open spec fn objection_to(
    world: WorldView,
    root: PathView,
    candidate: CandidateView,
) -> Option<Seq<char>> {
    objection(
        world,
        normalized(world.platform, candidate.target).path,
        root,
        candidate.facts,
    )
}

/// The candidates that are not acted on, by the path they were marked by.
pub open spec fn blocked_of(
    world: WorldView,
    root: PathView,
    candidates: Seq<CandidateView>,
) -> Seq<BlockedView>
    decreases candidates.len(),
{
    if candidates.len() == 0 {
        seq![]
    } else {
        let front = blocked_of(world, root, candidates.drop_last());
        match objection_to(world, root, candidates.last()) {
            Some(reason) => front.push(
                BlockedView { path: candidates.last().target.path, reason },
            ),
            None => front,
        }
    }
}

/// The candidates that are acted on, by their normalized path.
pub open spec fn accepted_of(
    world: WorldView,
    root: PathView,
    candidates: Seq<CandidateView>,
) -> Seq<TargetView>
    decreases candidates.len(),
{
    if candidates.len() == 0 {
        seq![]
    } else {
        let front = accepted_of(world, root, candidates.drop_last());
        match objection_to(world, root, candidates.last()) {
            Some(_) => front,
            None => front.push(normalized(world.platform, candidates.last().target)),
        }
    }
}

/// `targets` with `target` after everything that does not come after it.
pub open spec fn inserted(targets: Seq<TargetView>, target: TargetView) -> Seq<TargetView>
    decreases targets.len(),
{
    if targets.len() > 0 && path::path_less(target.path.parts, targets.last().path.parts) {
        inserted(targets.drop_last(), target).push(targets.last())
    } else {
        targets.push(target)
    }
}

/// `targets` in the order of their paths; equal paths stay in their order.
pub open spec fn in_path_order(targets: Seq<TargetView>) -> Seq<TargetView>
    decreases targets.len(),
{
    if targets.len() == 0 {
        seq![]
    } else {
        inserted(in_path_order(targets.drop_last()), targets.last())
    }
}

/// `target` is inside one of `outer`, or is one of them.
pub open spec fn is_covered(
    platform: Platform,
    target: TargetView,
    outer: Seq<TargetView>,
) -> bool {
    exists|i: int|
        0 <= i < outer.len() && #[trigger] guards::is_within(
            platform,
            target.path.parts,
            outer[i].path.parts,
        )
}

/// The target at `i` covers the one at `j`: that one is inside it, or is the
/// same place and comes later.
pub open spec fn covers(platform: Platform, targets: Seq<TargetView>, i: int, j: int) -> bool {
    &&& i != j
    &&& guards::is_within(platform, targets[j].path.parts, targets[i].path.parts)
    &&& i < j || !guards::is_within(platform, targets[i].path.parts, targets[j].path.parts)
}

/// Another of `targets` covers the one at `j`.
pub open spec fn is_inner(platform: Platform, targets: Seq<TargetView>, j: int) -> bool {
    exists|i: int| 0 <= i < targets.len() && #[trigger] covers(platform, targets, i, j)
}

/// Of the first `n` of `targets`, the places of those that another covers,
/// or of those that none does.
pub open spec fn places(
    platform: Platform,
    targets: Seq<TargetView>,
    inner: bool,
    n: nat,
) -> Seq<int>
    decreases n,
{
    if n == 0 {
        seq![]
    } else {
        let before = places(platform, targets, inner, (n - 1) as nat);
        if is_inner(platform, targets, n - 1) == inner {
            before.push(n - 1)
        } else {
            before
        }
    }
}

/// The targets at these places.
pub open spec fn picked(targets: Seq<TargetView>, at: Seq<int>) -> Seq<TargetView> {
    at.map_values(|i: int| targets[i])
}

/// Of `targets`, in their order, those that no other covers.
pub open spec fn outer_of(platform: Platform, targets: Seq<TargetView>) -> Seq<TargetView> {
    picked(targets, places(platform, targets, false, targets.len()))
}

/// Of `targets`, in their order, those that another covers.
pub open spec fn inner_of(platform: Platform, targets: Seq<TargetView>) -> Seq<TargetView> {
    picked(targets, places(platform, targets, true, targets.len()))
}

/// The plan for `candidates` in a scan of `root`.
pub open spec fn plan_of(
    world: WorldView,
    candidates: Seq<CandidateView>,
    root: PathView,
) -> PlanView {
    let clean = guards::clean(world.platform, root);
    let accepted = in_path_order(accepted_of(world, clean, candidates));
    PlanView {
        targets: outer_of(world.platform, accepted),
        covered: inner_of(world.platform, accepted),
        blocked: blocked_of(world, clean, candidates),
        root: clean,
    }
}

/// Why `path` is not acted on, if it is not.
pub fn object(world: &World, path: &PathBuf, root: &PathBuf, facts: &Facts) -> (r: Option<String>)
    ensures
        judge::said(r) == objection(world@, path@, root@, facts@),
{
    let mounts = match &world.mounts {
        Err(reason) => {
            return Some(reason.clone());
        },
        Ok(mounts) => mounts,
    };
    let home: Option<&Home> = world.home.as_ref();
    if let Some(reason) = judge::refuse(
        world.platform,
        path,
        root,
        home,
        mounts.as_slice(),
        world.trees.as_slice(),
        facts,
    ) {
        return Some(reason);
    }
    judge::linked(
        world.platform,
        path,
        root,
        world.real_root.as_ref(),
        home,
        facts.real_parent.as_ref(),
    )
}

/// Put `target` after everything that does not come after it.
fn insert_in_order(targets: &mut Vec<Target>, target: Target)
    ensures
        final(targets).deep_view() == inserted(old(targets).deep_view(), target@),
{
    let ghost all = targets.deep_view();
    let mut i: usize = targets.len();
    assert(all.take(i as int) =~= all);
    assert(inserted(all, target@) =~= inserted(all.take(i as int), target@) + all.skip(i as int));
    while i > 0 && target.path.before(&targets[i - 1].path)
        invariant
            i <= targets@.len(),
            all == targets.deep_view(),
            inserted(all, target@) == inserted(all.take(i as int), target@) + all.skip(i as int),
        decreases i,
    {
        proof {
            let front = all.take(i as int);
            assert(front.last() == targets@[i - 1]@);
            assert(front.drop_last() =~= all.take(i - 1));
            assert(inserted(front, target@) + all.skip(i as int) =~= inserted(
                all.take(i - 1),
                target@,
            ) + all.skip(i - 1));
        }
        i -= 1;
    }
    proof {
        let front = all.take(i as int);
        if i > 0 {
            assert(front.last() == targets@[i - 1]@);
        }
        assert(inserted(front, target@) == front.push(target@));
        assert(all.insert(i as int, target@) =~= front.push(target@) + all.skip(i as int));
    }
    let ghost view = target@;
    targets.insert(i, target);
    assert(targets.deep_view() =~= all.insert(i as int, view));
}

/// Build the plan for `candidates`, which must all live under `root`.
///
/// Paths outside `root` are blocked rather than removed: the tree the user
/// was looking at is the only thing they consented to act on. A path inside
/// another target is removed with it: the outer one is kept, and the inner
/// one reported, so the nesting can be explained.
pub fn plan(world: &World, candidates: &[Candidate], root: &PathBuf) -> (r: Plan)
    ensures
        r@ == plan_of(world@, candidates.deep_view(), root@),
{
    let root = guards::normalize(world.platform, root);
    let ghost all = candidates.deep_view();
    let mut blocked: Vec<Blocked> = Vec::new();
    let mut accepted: Vec<Target> = Vec::new();
    let mut i: usize = 0;
    assert(all.take(0) =~= Seq::<CandidateView>::empty());
    assert(blocked.deep_view() =~= blocked_of(world@, root@, all.take(0)));
    assert(accepted.deep_view() =~= in_path_order(accepted_of(world@, root@, all.take(0))));
    while i < candidates.len()
        invariant
            i <= candidates@.len(),
            all == candidates.deep_view(),
            blocked.deep_view() == blocked_of(world@, root@, all.take(i as int)),
            accepted.deep_view() == in_path_order(accepted_of(world@, root@, all.take(i as int))),
        decreases candidates@.len() - i,
    {
        let ghost before = blocked.deep_view();
        let ghost sofar = accepted_of(world@, root@, all.take(i as int));
        proof {
            assert(all.take(i + 1).drop_last() =~= all.take(i as int));
            assert(all.take(i + 1).last() == candidates@[i as int]@);
        }
        let target = &candidates[i].target;
        let path = guards::normalize(world.platform, &target.path);
        match object(world, &path, &root, &candidates[i].facts) {
            Some(reason) => {
                let ghost text = reason@;
                blocked.push(Blocked { path: target.path.clone(), reason });
                assert(blocked.deep_view() =~= before.push(
                    BlockedView { path: target@.path, reason: text },
                ));
            },
            None => {
                let clean = Target {
                    path,
                    bytes: target.bytes,
                    is_dir: target.is_dir,
                    hidden: target.hidden,
                };
                assert(clean@ == normalized(world@.platform, target@));
                assert(sofar.push(clean@).drop_last() =~= sofar);
                insert_in_order(&mut accepted, clean);
            },
        }
        i += 1;
    }
    assert(all.take(all.len() as int) =~= all);
    let ghost whole = accepted.deep_view();
    let ghost platform = world@.platform;
    let keys = keys_of(world.platform, accepted.as_slice());
    let mut targets: Vec<Target> = Vec::new();
    let mut covered: Vec<Target> = Vec::new();
    let mut i: usize = 0;
    assert(targets.deep_view() =~= picked(whole, places(platform, whole, false, 0)));
    assert(covered.deep_view() =~= picked(whole, places(platform, whole, true, 0)));
    while i < accepted.len()
        invariant
            i <= accepted@.len(),
            platform == world@.platform,
            whole == accepted.deep_view(),
            are_keys(platform, keys@, whole),
            targets.deep_view() == picked(whole, places(platform, whole, false, i as nat)),
            covered.deep_view() == picked(whole, places(platform, whole, true, i as nat)),
        decreases accepted@.len() - i,
    {
        let ghost outer = targets.deep_view();
        let ghost inner = covered.deep_view();
        assert(whole.len() == accepted@.len() && keys@.len() == whole.len());
        let target = accepted[i].clone();
        let ghost view = target@;
        assert(view == whole[i as int]);
        if any_covers(world.platform, keys.as_slice(), i, Ghost(whole)) {
            covered.push(target);
            assert(covered.deep_view() =~= inner.push(view));
        } else {
            targets.push(target);
            assert(targets.deep_view() =~= outer.push(view));
        }
        assert(targets.deep_view() =~= picked(
            whole,
            places(platform, whole, false, (i + 1) as nat),
        ));
        assert(covered.deep_view() =~= picked(
            whole,
            places(platform, whole, true, (i + 1) as nat),
        ));
        i += 1;
    }
    Plan { targets, covered, blocked, root }
}

/// `keys` are the keys of `targets`, in their order.
spec fn are_keys(platform: Platform, keys: Seq<PathBuf>, targets: Seq<TargetView>) -> bool {
    &&& keys.len() == targets.len()
    &&& forall|i: int|
        0 <= i < keys.len() ==> (#[trigger] keys[i])@ == guards::key(
            platform,
            targets[i].path.parts,
        )
}

/// The keys of `targets`.
fn keys_of(platform: Platform, targets: &[Target]) -> (r: Vec<PathBuf>)
    ensures
        are_keys(platform, r@, targets.deep_view()),
{
    let ghost all = targets.deep_view();
    let mut keys: Vec<PathBuf> = Vec::new();
    let mut i: usize = 0;
    while i < targets.len()
        invariant
            i <= targets@.len(),
            all == targets.deep_view(),
            keys@.len() == i,
            forall|k: int|
                0 <= k < i ==> (#[trigger] keys@[k])@ == guards::key(platform, all[k].path.parts),
        decreases targets@.len() - i,
    {
        assert(all[i as int] == targets@[i as int]@);
        keys.push(guards::guard_key(platform, &targets[i].path));
        i += 1;
    }
    keys
}

/// Whether another of the targets with these keys covers the one at `j`.
fn any_covers(
    platform: Platform,
    keys: &[PathBuf],
    j: usize,
    targets: Ghost<Seq<TargetView>>,
) -> (r: bool)
    requires
        are_keys(platform, keys@, targets@),
        j < keys@.len(),
    ensures
        r == is_inner(platform, targets@, j as int),
{
    let mut i: usize = 0;
    assert(keys@.len() == keys.len());
    while i < keys.len()
        invariant
            i <= keys@.len(),
            keys@.len() == keys.len(),
            j < keys@.len(),
            are_keys(platform, keys@, targets@),
            forall|k: int| 0 <= k < i ==> !(#[trigger] covers(platform, targets@, k, j as int)),
        decreases keys@.len() - i,
    {
        assert(keys@[i as int]@ == guards::key(platform, targets@[i as int].path.parts));
        assert(keys@[j as int]@ == guards::key(platform, targets@[j as int].path.parts));
        if i != j && keys[j].starts_with(&keys[i]) && (i < j || !keys[i].starts_with(&keys[j])) {
            assert(covers(platform, targets@, i as int, j as int));
            return true;
        }
        i += 1;
    }
    false
}

// ---------------------------------------------------------------------
// What holds of every plan.
// ---------------------------------------------------------------------

proof fn lemma_inserted(targets: Seq<TargetView>, target: TargetView)
    ensures
        inserted(targets, target).len() == targets.len() + 1,
        inserted(targets, target).to_multiset() == targets.to_multiset().insert(target),
    decreases targets.len(),
{
    broadcast use vstd::seq_lib::group_to_multiset_ensures;

    if targets.len() > 0 && path::path_less(target.path.parts, targets.last().path.parts) {
        let front = targets.drop_last();
        lemma_inserted(front, target);
        assert(targets =~= front.push(targets.last()));
        assert(front.to_multiset().insert(target).insert(targets.last())
            =~= front.to_multiset().insert(targets.last()).insert(target));
    }
}

/// Ordering targets by path keeps every one of them.
pub proof fn lemma_path_order_keeps(targets: Seq<TargetView>)
    ensures
        in_path_order(targets).len() == targets.len(),
        in_path_order(targets).to_multiset() == targets.to_multiset(),
    decreases targets.len(),
{
    broadcast use vstd::seq_lib::group_to_multiset_ensures;

    if targets.len() > 0 {
        let front = targets.drop_last();
        lemma_path_order_keeps(front);
        lemma_inserted(in_path_order(front), targets.last());
        assert(targets =~= front.push(targets.last()));
    }
}

/// No path comes before one that precedes it.
pub open spec fn is_ordered(targets: Seq<TargetView>) -> bool {
    forall|i: int, j: int|
        0 <= i < j < targets.len() ==> !path::path_less(
            (#[trigger] targets[j]).path.parts,
            (#[trigger] targets[i]).path.parts,
        )
}

proof fn lemma_inserted_ordered(targets: Seq<TargetView>, target: TargetView)
    requires
        is_ordered(targets),
    ensures
        is_ordered(inserted(targets, target)),
        forall|i: int|
            0 <= i < inserted(targets, target).len() ==> (#[trigger] inserted(targets, target)[i]
                == target || exists|k: int|
                0 <= k < targets.len() && inserted(targets, target)[i] == #[trigger] targets[k]),
    decreases targets.len(),
{
    path::lemma_path_order();
    let out = inserted(targets, target);
    if targets.len() > 0 && path::path_less(target.path.parts, targets.last().path.parts) {
        let front = targets.drop_last();
        let last = targets.last();
        assert forall|i: int, j: int| 0 <= i < j < front.len() implies !path::path_less(
            (#[trigger] front[j]).path.parts,
            (#[trigger] front[i]).path.parts,
        ) by {
            assert(front[j] == targets[j] && front[i] == targets[i]);
        }
        lemma_inserted_ordered(front, target);
        let rest = inserted(front, target);
        assert forall|i: int, j: int| 0 <= i < j < out.len() implies !path::path_less(
            (#[trigger] out[j]).path.parts,
            (#[trigger] out[i]).path.parts,
        ) by {
            if j < rest.len() {
                assert(out[i] == rest[i] && out[j] == rest[j]);
            } else {
                assert(out[j] == last);
                assert(out[i] == rest[i]);
                if rest[i] != target {
                    let k = choose|k: int| 0 <= k < front.len() && rest[i] == #[trigger] front[k];
                    assert(front[k] == targets[k]);
                    assert(targets[targets.len() - 1] == last);
                } else if path::path_less(last.path.parts, target.path.parts) {
                    assert(path::path_less(target.path.parts, target.path.parts));
                }
            }
        }
        assert forall|i: int| 0 <= i < out.len() implies (#[trigger] out[i] == target
            || exists|k: int| 0 <= k < targets.len() && out[i] == #[trigger] targets[k]) by {
            if i < rest.len() {
                assert(out[i] == rest[i]);
                if rest[i] != target {
                    let k = choose|k: int| 0 <= k < front.len() && rest[i] == #[trigger] front[k];
                    assert(front[k] == targets[k]);
                }
            } else {
                assert(out[i] == targets[targets.len() - 1]);
            }
        }
    } else {
        assert forall|i: int, j: int| 0 <= i < j < out.len() implies !path::path_less(
            (#[trigger] out[j]).path.parts,
            (#[trigger] out[i]).path.parts,
        ) by {
            assert(out[i] == targets[i]);
            if j < targets.len() {
                assert(out[j] == targets[j]);
            } else {
                assert(out[j] == target);
                assert(targets.last() == targets[targets.len() - 1]);
                let a = targets[i].path.parts;
                let b = targets.last().path.parts;
                let c = target.path.parts;
                if path::path_less(c, a) {
                    if i < targets.len() - 1 {
                        assert(!path::path_less(b, a));
                        if a != b {
                            assert(path::path_less(a, b));
                            assert(path::path_less(c, b));
                        }
                    }
                }
            }
        }
        assert forall|i: int| 0 <= i < out.len() implies (#[trigger] out[i] == target
            || exists|k: int| 0 <= k < targets.len() && out[i] == #[trigger] targets[k]) by {
            if i < targets.len() {
                assert(out[i] == targets[i]);
            }
        }
    }
}

/// Ordering targets by path orders them.
pub proof fn lemma_path_order_orders(targets: Seq<TargetView>)
    ensures
        is_ordered(in_path_order(targets)),
    decreases targets.len(),
{
    if targets.len() > 0 {
        lemma_path_order_orders(targets.drop_last());
        lemma_inserted_ordered(in_path_order(targets.drop_last()), targets.last());
    }
}

/// The places picked are those asked for, each once and in order.
pub proof fn lemma_places(platform: Platform, targets: Seq<TargetView>, inner: bool, n: nat)
    requires
        n <= targets.len(),
    ensures
        forall|a: int|
            0 <= a < places(platform, targets, inner, n).len() ==> 0 <= (#[trigger] places(
                platform,
                targets,
                inner,
                n,
            )[a]) < n && is_inner(platform, targets, places(platform, targets, inner, n)[a])
                == inner,
        forall|a: int, b: int|
            0 <= a < b < places(platform, targets, inner, n).len() ==> (#[trigger] places(
                platform,
                targets,
                inner,
                n,
            )[a]) < (#[trigger] places(platform, targets, inner, n)[b]),
        forall|i: int|
            0 <= i < n && #[trigger] is_inner(platform, targets, i) == inner ==> places(
                platform,
                targets,
                inner,
                n,
            ).contains(i),
    decreases n,
{
    if n > 0 {
        let m = (n - 1) as nat;
        lemma_places(platform, targets, inner, m);
        let before = places(platform, targets, inner, m);
        let after = places(platform, targets, inner, n);
        assert forall|i: int|
            0 <= i < n && #[trigger] is_inner(platform, targets, i)
                == inner implies after.contains(i) by {
            if i == m {
                assert(after[after.len() - 1] == i);
            } else {
                assert(before.contains(i));
                let a = choose|a: int| 0 <= a < before.len() && before[a] == i;
                assert(after[a] == i);
            }
        }
    }
}

proof fn lemma_outer_inner(platform: Platform, targets: Seq<TargetView>, n: nat)
    requires
        n <= targets.len(),
    ensures
        places(platform, targets, false, n).len() + places(platform, targets, true, n).len() == n,
        picked(targets, places(platform, targets, false, n)).to_multiset().add(
            picked(targets, places(platform, targets, true, n)).to_multiset(),
        ) == targets.take(n as int).to_multiset(),
    decreases n,
{
    broadcast use vstd::seq_lib::group_to_multiset_ensures;

    let outer = picked(targets, places(platform, targets, false, n));
    let inner = picked(targets, places(platform, targets, true, n));
    if n > 0 {
        let m = (n - 1) as nat;
        let last = targets[n - 1];
        lemma_outer_inner(platform, targets, m);
        let x = picked(targets, places(platform, targets, false, m));
        let y = picked(targets, places(platform, targets, true, m));
        assert(targets.take(n as int) =~= targets.take(m as int).push(last));
        if is_inner(platform, targets, n - 1) {
            assert(inner =~= y.push(last));
            assert(outer =~= x);
            assert(x.to_multiset().add(y.to_multiset().insert(last)) =~= x.to_multiset().add(
                y.to_multiset(),
            ).insert(last));
        } else {
            assert(outer =~= x.push(last));
            assert(inner =~= y);
            assert(x.to_multiset().insert(last).add(y.to_multiset()) =~= x.to_multiset().add(
                y.to_multiset(),
            ).insert(last));
        }
    } else {
        assert(outer =~= Seq::<TargetView>::empty());
        assert(inner =~= Seq::<TargetView>::empty());
        assert(targets.take(0) =~= Seq::<TargetView>::empty());
        assert(outer.to_multiset().add(inner.to_multiset()) =~= targets.take(0).to_multiset());
    }
}

/// A plan accounts for every marked path once: it is a target, covered by
/// one, or blocked.
pub proof fn lemma_plan_accounts_for_all(
    world: WorldView,
    candidates: Seq<CandidateView>,
    root: PathView,
)
    ensures
        ({
            let plan = plan_of(world, candidates, root);
            &&& plan.targets.len() + plan.covered.len() + plan.blocked.len() == candidates.len()
            &&& plan.targets.to_multiset().add(plan.covered.to_multiset()) == accepted_of(
                world,
                plan.root,
                candidates,
            ).to_multiset()
        }),
{
    let plan = plan_of(world, candidates, root);
    let accepted = accepted_of(world, plan.root, candidates);
    let ordered = in_path_order(accepted);
    lemma_path_order_keeps(accepted);
    lemma_outer_inner(world.platform, ordered, ordered.len());
    assert(ordered.take(ordered.len() as int) =~= ordered);
    lemma_accepted_blocked(world, plan.root, candidates);
}

proof fn lemma_accepted_blocked(world: WorldView, root: PathView, candidates: Seq<CandidateView>)
    ensures
        accepted_of(world, root, candidates).len() + blocked_of(world, root, candidates).len()
            == candidates.len(),
    decreases candidates.len(),
{
    if candidates.len() > 0 {
        lemma_accepted_blocked(world, root, candidates.drop_last());
    }
}

/// Whatever is covered is inside one that is not.
proof fn lemma_outer_over(platform: Platform, targets: Seq<TargetView>, j: int) -> (k: int)
    requires
        0 <= j < targets.len(),
    ensures
        0 <= k < targets.len(),
        !is_inner(platform, targets, k),
        guards::is_within(platform, targets[j].path.parts, targets[k].path.parts),
    decreases guards::key(platform, targets[j].path.parts).parts.len(), j,
{
    let a = targets[j].path.parts;
    guards::lemma_within_order(platform, a, a, a);
    if is_inner(platform, targets, j) {
        let i = choose|i: int|
            0 <= i < targets.len() && #[trigger] covers(platform, targets, i, j);
        let b = targets[i].path.parts;
        let x = guards::key(platform, a).parts;
        let y = guards::key(platform, b).parts;
        if x.len() == y.len() {
            assert(x.take(y.len() as int) =~= x);
            guards::lemma_within_order(platform, b, b, b);
            assert(guards::is_within(platform, b, a));
        }
        let k = lemma_outer_over(platform, targets, i);
        guards::lemma_within_order(platform, a, b, targets[k].path.parts);
        k
    } else {
        j
    }
}

proof fn lemma_inner_covered(platform: Platform, targets: Seq<TargetView>)
    ensures
        forall|i: int|
            0 <= i < inner_of(platform, targets).len() ==> is_covered(
                platform,
                #[trigger] inner_of(platform, targets)[i],
                outer_of(platform, targets),
            ),
{
    let inner = inner_of(platform, targets);
    let outer = outer_of(platform, targets);
    let at = places(platform, targets, true, targets.len());
    let kept = places(platform, targets, false, targets.len());
    lemma_places(platform, targets, true, targets.len());
    lemma_places(platform, targets, false, targets.len());
    assert forall|i: int| 0 <= i < inner.len() implies is_covered(
        platform,
        #[trigger] inner[i],
        outer,
    ) by {
        assert(inner[i] == targets[at[i]]);
        let k = lemma_outer_over(platform, targets, at[i]);
        assert(is_inner(platform, targets, k) == false);
        assert(kept.contains(k));
        let m = choose|m: int| 0 <= m < kept.len() && kept[m] == k;
        assert(outer[m] == targets[k]);
        assert(guards::is_within(platform, inner[i].path.parts, outer[m].path.parts));
    }
}

/// What a plan reports as covered is inside one of its targets, or is one
/// of them: removing the targets removes it.
pub proof fn lemma_plan_covers(world: WorldView, candidates: Seq<CandidateView>, root: PathView)
    ensures
        ({
            let plan = plan_of(world, candidates, root);
            forall|i: int|
                0 <= i < plan.covered.len() ==> is_covered(
                    world.platform,
                    #[trigger] plan.covered[i],
                    plan.targets,
                )
        }),
{
    let plan = plan_of(world, candidates, root);
    lemma_inner_covered(
        world.platform,
        in_path_order(accepted_of(world, plan.root, candidates)),
    );
}

/// Both lists of a plan are in the order of their paths.
pub proof fn lemma_plan_in_order(world: WorldView, candidates: Seq<CandidateView>, root: PathView)
    ensures
        is_ordered(plan_of(world, candidates, root).targets),
        is_ordered(plan_of(world, candidates, root).covered),
{
    let plan = plan_of(world, candidates, root);
    let accepted = accepted_of(world, plan.root, candidates);
    lemma_path_order_orders(accepted);
    let all = in_path_order(accepted);
    lemma_picked_ordered(world.platform, all, false);
    lemma_picked_ordered(world.platform, all, true);
}

proof fn lemma_picked_ordered(platform: Platform, targets: Seq<TargetView>, inner: bool)
    requires
        is_ordered(targets),
    ensures
        is_ordered(picked(targets, places(platform, targets, inner, targets.len()))),
{
    let at = places(platform, targets, inner, targets.len());
    let out = picked(targets, at);
    lemma_places(platform, targets, inner, targets.len());
    assert forall|i: int, j: int| 0 <= i < j < out.len() implies !path::path_less(
        (#[trigger] out[j]).path.parts,
        (#[trigger] out[i]).path.parts,
    ) by {
        assert(out[i] == targets[at[i]] && out[j] == targets[at[j]]);
    }
}

/// No target of a plan is inside another, or the same place, as the guards
/// compare them: nothing is removed twice, or counted twice.
pub proof fn lemma_plan_targets_apart(
    world: WorldView,
    candidates: Seq<CandidateView>,
    root: PathView,
)
    ensures
        ({
            let targets = plan_of(world, candidates, root).targets;
            forall|i: int, j: int|
                0 <= i < targets.len() && 0 <= j < targets.len() && i != j ==> !guards::is_within(
                    world.platform,
                    (#[trigger] targets[i]).path.parts,
                    (#[trigger] targets[j]).path.parts,
                )
        }),
{
    let plan = plan_of(world, candidates, root);
    let platform = world.platform;
    let all = in_path_order(accepted_of(world, plan.root, candidates));
    let at = places(platform, all, false, all.len());
    let targets = plan.targets;
    lemma_places(platform, all, false, all.len());
    assert forall|i: int, j: int|
        0 <= i < targets.len() && 0 <= j < targets.len() && i != j implies !guards::is_within(
        platform,
        (#[trigger] targets[i]).path.parts,
        (#[trigger] targets[j]).path.parts,
    ) by {
        assert(targets[i] == all[at[i]] && targets[j] == all[at[j]]);
        assert(at[i] != at[j]);
        if guards::is_within(platform, targets[i].path.parts, targets[j].path.parts) {
            assert(!is_inner(platform, all, at[i]) && !is_inner(platform, all, at[j]));
            assert(!covers(platform, all, at[j], at[i]));
            assert(!covers(platform, all, at[i], at[j]));
        }
    }
}

/// `target` is `candidate`, normalized, and nothing objects to it.
pub open spec fn passes(
    world: WorldView,
    root: PathView,
    candidate: CandidateView,
    target: TargetView,
) -> bool {
    target == normalized(world.platform, candidate.target) && objection_to(world, root, candidate)
        is None
}

proof fn lemma_accepted_pass(world: WorldView, root: PathView, candidates: Seq<CandidateView>)
    ensures
        forall|i: int|
            0 <= i < accepted_of(world, root, candidates).len() ==> exists|k: int|
                0 <= k < candidates.len() && passes(
                    world,
                    root,
                    #[trigger] candidates[k],
                    #[trigger] accepted_of(world, root, candidates)[i],
                ),
    decreases candidates.len(),
{
    if candidates.len() > 0 {
        let front = candidates.drop_last();
        lemma_accepted_pass(world, root, front);
        let before = accepted_of(world, root, front);
        let after = accepted_of(world, root, candidates);
        assert forall|i: int| 0 <= i < after.len() implies exists|k: int|
            0 <= k < candidates.len() && passes(
                world,
                root,
                #[trigger] candidates[k],
                #[trigger] after[i],
            ) by {
            if i < before.len() {
                assert(after[i] == before[i]);
                let k = choose|k: int|
                    0 <= k < front.len() && passes(world, root, #[trigger] front[k], before[i]);
                assert(passes(world, root, candidates[k], after[i]));
            } else {
                assert(passes(world, root, candidates[candidates.len() - 1], after[i]));
            }
        }
    }
}

/// `target` is one of `candidates`, normalized, and nothing objects to it.
pub open spec fn is_cleared(
    world: WorldView,
    root: PathView,
    candidates: Seq<CandidateView>,
    target: TargetView,
) -> bool {
    exists|k: int|
        0 <= k < candidates.len() && passes(world, root, #[trigger] candidates[k], target)
}

/// Every target of a plan, and everything a target covers, is a marked
/// path, normalized, that nothing objects to.
pub proof fn lemma_plan_targets_pass(
    world: WorldView,
    candidates: Seq<CandidateView>,
    root: PathView,
)
    ensures
        ({
            let plan = plan_of(world, candidates, root);
            &&& forall|i: int|
                0 <= i < plan.targets.len() ==> is_cleared(
                    world,
                    plan.root,
                    candidates,
                    #[trigger] plan.targets[i],
                )
            &&& forall|i: int|
                0 <= i < plan.covered.len() ==> is_cleared(
                    world,
                    plan.root,
                    candidates,
                    #[trigger] plan.covered[i],
                )
        }),
{
    let plan = plan_of(world, candidates, root);
    lemma_plan_accounts_for_all(world, candidates, root);
    assert forall|i: int| 0 <= i < plan.targets.len() implies is_cleared(
        world,
        plan.root,
        candidates,
        #[trigger] plan.targets[i],
    ) by {
        lemma_cleared(world, candidates, root, plan.targets[i]);
    }
    assert forall|i: int| 0 <= i < plan.covered.len() implies is_cleared(
        world,
        plan.root,
        candidates,
        #[trigger] plan.covered[i],
    ) by {
        lemma_cleared(world, candidates, root, plan.covered[i]);
    }
}

proof fn lemma_cleared(
    world: WorldView,
    candidates: Seq<CandidateView>,
    root: PathView,
    target: TargetView,
)
    requires
        plan_of(world, candidates, root).targets.contains(target) || plan_of(
            world,
            candidates,
            root,
        ).covered.contains(target),
    ensures
        is_cleared(world, plan_of(world, candidates, root).root, candidates, target),
{
    broadcast use vstd::seq_lib::group_to_multiset_ensures;

    let plan = plan_of(world, candidates, root);
    let accepted = accepted_of(world, plan.root, candidates);
    lemma_plan_accounts_for_all(world, candidates, root);
    lemma_accepted_pass(world, plan.root, candidates);
    assert(plan.targets.to_multiset().count(target) + plan.covered.to_multiset().count(target)
        == accepted.to_multiset().count(target));
    assert(accepted.contains(target));
    let i = choose|i: int| 0 <= i < accepted.len() && accepted[i] == target;
    assert(accepted[i] == target);
}

/// Every target of a plan is inside the scanned root and not the root
/// itself, is not the home directory and does not hold it, is in no system
/// tree outside the home directory and holds none, and no known mount is at
/// it or inside it.
pub proof fn lemma_plan_is_safe(
    world: WorldView,
    candidates: Seq<CandidateView>,
    root: PathView,
    i: int,
)
    requires
        0 <= i < plan_of(world, candidates, root).targets.len(),
    ensures
        ({
            let plan = plan_of(world, candidates, root);
            let path = plan.targets[i].path;
            let key = guards::key(world.platform, path.parts).parts;
            let root_key = guards::key(world.platform, plan.root.parts).parts;
            &&& path::has_parent(path.parts)
            &&& key != root_key
            &&& path::inside(key, root_key) || path::inside(path.parts, plan.root.parts)
            &&& world.home matches Some(home) ==> {
                &&& key != home.key.parts
                &&& !path::inside(home.key.parts, key)
            }
            &&& forall|j: int|
                0 <= j < world.trees.len() ==> {
                    &&& path::inside(key, (#[trigger] world.trees[j]).key.parts) ==> (
                    world.home matches Some(home) && path::inside(key, home.key.parts))
                    &&& !path::inside(world.trees[j].key.parts, key) || world.trees[j].key.parts
                        == key
                }
            &&& world.mounts matches Ok(mounts) && forall|j: int|
                0 <= j < mounts.len() ==> !path::inside((#[trigger] mounts[j]).parts, key)
        }),
{
    let plan = plan_of(world, candidates, root);
    lemma_plan_targets_pass(world, candidates, root);
    assert(is_cleared(world, plan.root, candidates, plan.targets[i]));
    let k = choose|k: int|
        0 <= k < candidates.len() && passes(
            world,
            plan.root,
            #[trigger] candidates[k],
            plan.targets[i],
        );
    judge::lemma_guards(
        world.platform,
        plan.targets[i].path,
        plan.root,
        world.home,
        world.mounts->Ok_0,
        world.trees,
        candidates[k].facts,
    );
}

/// Without a mount table nothing is removed: every marked path is blocked.
pub proof fn lemma_no_mounts_no_removal(
    world: WorldView,
    candidates: Seq<CandidateView>,
    root: PathView,
)
    requires
        world.mounts is Err,
    ensures
        plan_of(world, candidates, root).targets.len() == 0,
        plan_of(world, candidates, root).covered.len() == 0,
        plan_of(world, candidates, root).blocked.len() == candidates.len(),
{
    let plan = plan_of(world, candidates, root);
    lemma_plan_accounts_for_all(world, candidates, root);
    lemma_accepted_none(world, plan.root, candidates);
    lemma_path_order_keeps(accepted_of(world, plan.root, candidates));
}

proof fn lemma_accepted_none(world: WorldView, root: PathView, candidates: Seq<CandidateView>)
    requires
        world.mounts is Err,
    ensures
        accepted_of(world, root, candidates).len() == 0,
    decreases candidates.len(),
{
    if candidates.len() > 0 {
        lemma_accepted_none(world, root, candidates.drop_last());
    }
}

/// The marks that plan `targets` again, of which the disk says what `disk`
/// says of each path.
pub open spec fn marked_again(
    targets: Seq<TargetView>,
    disk: spec_fn(PathView) -> FactsView,
) -> Seq<CandidateView> {
    targets.map_values(
        |target: TargetView| CandidateView { target, facts: disk(target.path) },
    )
}

/// Planning a plan's own targets again, with the same mounts and the same
/// disk, gives the same targets, and nothing else; on Windows, where the
/// normalized paths read as they are.
pub proof fn lemma_plan_again(
    world: WorldView,
    candidates: Seq<CandidateView>,
    root: PathView,
    disk: spec_fn(PathView) -> FactsView,
)
    requires
        forall|k: int|
            0 <= k < candidates.len() ==> (#[trigger] candidates[k]).facts == disk(
                normalized(world.platform, candidates[k].target).path,
            ),
        world.platform is Windows ==> guards::is_settled(guards::clean(world.platform, root)),
        world.platform is Windows ==> forall|k: int|
            0 <= k < candidates.len() ==> guards::is_settled(
                normalized(world.platform, (#[trigger] candidates[k]).target).path,
            ),
    ensures
        ({
            let plan = plan_of(world, candidates, root);
            let again = plan_of(world, marked_again(plan.targets, disk), plan.root);
            &&& again.targets == plan.targets
            &&& again.covered.len() == 0
            &&& again.blocked.len() == 0
            &&& again.root == plan.root
            &&& total_bytes(again.targets) == total_bytes(plan.targets)
        }),
{
    let platform = world.platform;
    let plan = plan_of(world, candidates, root);
    let targets = plan.targets;
    let marks = marked_again(targets, disk);
    guards::lemma_clean_idempotent(platform, root);
    lemma_plan_targets_pass(world, candidates, root);
    assert forall|i: int| 0 <= i < marks.len() implies objection_to(
        world,
        plan.root,
        #[trigger] marks[i],
    ) is None && normalized(platform, marks[i].target) == targets[i] by {
        assert(is_cleared(world, plan.root, candidates, targets[i]));
        let k = choose|k: int|
            0 <= k < candidates.len() && passes(
                world,
                plan.root,
                #[trigger] candidates[k],
                targets[i],
            );
        guards::lemma_clean_idempotent(platform, candidates[k].target.path);
        assert(marks[i] == (CandidateView { target: targets[i], facts: disk(targets[i].path) }));
        assert(candidates[k].facts == disk(targets[i].path));
    }
    lemma_all_accepted(world, plan.root, marks, targets);
    lemma_plan_in_order(world, candidates, root);
    lemma_ordered_fixed(targets);
    lemma_plan_targets_apart(world, candidates, root);
    assert forall|j: int| 0 <= j < targets.len() implies !(#[trigger] is_inner(
        platform,
        targets,
        j,
    )) by {
        if is_inner(platform, targets, j) {
            let i = choose|i: int|
                0 <= i < targets.len() && #[trigger] covers(platform, targets, i, j);
            assert(guards::is_within(platform, targets[j].path.parts, targets[i].path.parts));
        }
    }
    lemma_all_outer(platform, targets, targets.len());
    assert(outer_of(platform, targets) =~= targets);
    assert(inner_of(platform, targets) =~= Seq::<TargetView>::empty());
}

proof fn lemma_all_accepted(
    world: WorldView,
    root: PathView,
    candidates: Seq<CandidateView>,
    targets: Seq<TargetView>,
)
    requires
        candidates.len() == targets.len(),
        forall|i: int|
            0 <= i < candidates.len() ==> objection_to(world, root, #[trigger] candidates[i])
                is None && normalized(world.platform, candidates[i].target) == targets[i],
    ensures
        accepted_of(world, root, candidates) == targets,
        blocked_of(world, root, candidates).len() == 0,
    decreases candidates.len(),
{
    if candidates.len() > 0 {
        let front = candidates.drop_last();
        assert forall|i: int| 0 <= i < front.len() implies objection_to(
            world,
            root,
            #[trigger] front[i],
        ) is None && normalized(world.platform, front[i].target) == targets.drop_last()[i] by {
            assert(front[i] == candidates[i]);
        }
        lemma_all_accepted(world, root, front, targets.drop_last());
        assert(candidates[candidates.len() - 1] == candidates.last());
        assert(targets.drop_last().push(targets.last()) =~= targets);
    } else {
        assert(accepted_of(world, root, candidates) =~= targets);
    }
}

proof fn lemma_ordered_fixed(targets: Seq<TargetView>)
    requires
        is_ordered(targets),
    ensures
        in_path_order(targets) == targets,
    decreases targets.len(),
{
    if targets.len() > 0 {
        let front = targets.drop_last();
        assert forall|i: int, j: int| 0 <= i < j < front.len() implies !path::path_less(
            (#[trigger] front[j]).path.parts,
            (#[trigger] front[i]).path.parts,
        ) by {
            assert(front[j] == targets[j] && front[i] == targets[i]);
        }
        lemma_ordered_fixed(front);
        assert(targets.last() == targets[targets.len() - 1]);
        if front.len() > 0 {
            assert(front.last() == targets[targets.len() - 2]);
        }
        assert(front.push(targets.last()) =~= targets);
    } else {
        assert(in_path_order(targets) =~= targets);
    }
}

proof fn lemma_all_outer(platform: Platform, targets: Seq<TargetView>, n: nat)
    requires
        n <= targets.len(),
        forall|j: int| 0 <= j < n ==> !(#[trigger] is_inner(platform, targets, j)),
    ensures
        places(platform, targets, false, n) == Seq::new(n, |i: int| i),
        places(platform, targets, true, n).len() == 0,
    decreases n,
{
    if n > 0 {
        lemma_all_outer(platform, targets, (n - 1) as nat);
        assert(!is_inner(platform, targets, n - 1));
        assert(Seq::new((n - 1) as nat, |i: int| i).push(n - 1) =~= Seq::new(n, |i: int| i));
    } else {
        assert(places(platform, targets, false, n) =~= Seq::new(n, |i: int| i));
    }
}

} // verus!
