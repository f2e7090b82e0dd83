//! Removing one target for good, from the first check to the target itself.
//!
//! A [`Deletion`] goes through its stages in order: that nothing is mounted
//! on the target or inside it, the way down to it, what it is, and, for a
//! directory, that it is on the volume it is in, and what it holds; the
//! target itself goes last. The worker keeps what it opened, does what each
//! stage asks for, and hands back what came of it.

use vstd::prelude::*;

use crate::descent;
use crate::descent::{Step, StepView};
use crate::fault;
use crate::fault::{Fault, FaultView};
use crate::mounts;
use crate::path;
use crate::path::{PathBuf, PathView};
use crate::platform::Platform;
use crate::sweep;
use crate::sweep::{Action, ActionView, Event, EventView, Sweep, SweepView, Volume};

verus! {

// ---------------------------------------------------------------------
// Stages.
// ---------------------------------------------------------------------

/// What a target is.
#[derive(Clone, Copy, Debug, PartialEq, Eq, Structural)]
pub enum TargetKind {
    Directory,
    /// A link to a directory, or a junction.
    DirectoryLink,
    Other,
}

/// How the target itself is taken away.
#[derive(Clone, Copy, Debug, PartialEq, Eq, Structural)]
pub enum LastWay {
    /// Unlink it.
    Unlink,
    /// Close it, and remove the directory, which is empty now.
    Directory,
    /// Remove the directory with everything in it.
    Tree,
    /// Remove the link as a directory: Windows then takes the link and
    /// leaves its target alone.
    Link,
}

/// How far a deletion has come.
#[derive(Debug)]
pub enum Stage {
    /// Nothing is known of what is mounted.
    Boundaries,
    /// On the way down, at this one of the steps.
    Down { steps: Vec<Step>, next: usize },
    /// At the target, whatever it is.
    Kind,
    /// At a directory.
    Enter,
    /// Emptying the directory.
    Empty(Sweep),
    /// Nothing is left but the target itself.
    Last(LastWay),
    /// The target is gone.
    Done,
    /// Something was in the way.
    Failed(Fault),
}

/// What a [`Stage`] stands for.
pub enum StageView {
    Boundaries,
    Down { steps: Seq<StepView>, next: nat },
    Kind,
    Enter,
    Empty(SweepView),
    Last(LastWay),
    Done,
    Failed(FaultView),
}

impl View for Stage {
    type V = StageView;

    open spec fn view(&self) -> StageView {
        match *self {
            Stage::Boundaries => StageView::Boundaries,
            Stage::Down { steps, next } => StageView::Down {
                steps: steps.deep_view(),
                next: next as nat,
            },
            Stage::Kind => StageView::Kind,
            Stage::Enter => StageView::Enter,
            Stage::Empty(sweep) => StageView::Empty(sweep@),
            Stage::Last(way) => StageView::Last(way),
            Stage::Done => StageView::Done,
            Stage::Failed(fault) => StageView::Failed(fault@),
        }
    }
}

/// One target being removed for good.
#[derive(Debug)]
pub struct Deletion {
    pub platform: Platform,
    pub path: PathBuf,
    /// The scanned root the target was marked below.
    pub root: PathBuf,
    pub stage: Stage,
}

/// What a [`Deletion`] stands for.
pub struct DeletionView {
    pub platform: Platform,
    pub path: PathView,
    pub root: PathView,
    pub stage: StageView,
}

impl View for Deletion {
    type V = DeletionView;

    open spec fn view(&self) -> DeletionView {
        DeletionView {
            platform: self.platform,
            path: self.path@,
            root: self.root@,
            stage: self.stage@,
        }
    }
}

impl DeletionView {
    /// There is a step to take on the way down, and something to do in the
    /// directory that is emptied.
    pub open spec fn wf(self) -> bool {
        match self.stage {
            StageView::Down { steps, next } => next < steps.len() && steps[next as int]
                !is BadTarget,
            StageView::Empty(sweep) => sweep.wf() && sweep.phase !is Done && sweep.phase
                !is Stopped,
            _ => true,
        }
    }
}

/// What the worker is asked for.
#[derive(Debug)]
pub enum Request {
    /// What is mounted now, and whether the target is a mount point.
    Mounts,
    /// Open this directory, the next on the way down.
    Open(Step),
    /// What the target is, by this name in the directory opened last; on
    /// Windows, by its path. A link is not followed.
    Inspect(Vec<u8>),
    /// Open the directory by this name in the one opened last, not following
    /// a link, and tell where both live.
    Enter(Vec<u8>),
    /// Do this in the innermost directory of those being emptied.
    Sweep(Action),
    /// Take the target itself away, by this name in the directory opened
    /// last; on Windows, by its path.
    Remove(LastWay, Vec<u8>),
    /// Nothing: the target is gone.
    Done,
    /// Nothing more, for this reason.
    Failed(Fault),
}

/// What a [`Request`] stands for.
pub enum RequestView {
    Mounts,
    Open(StepView),
    Inspect(Seq<u8>),
    Enter(Seq<u8>),
    Sweep(ActionView),
    Remove(LastWay, Seq<u8>),
    Done,
    Failed(FaultView),
}

impl View for Request {
    type V = RequestView;

    open spec fn view(&self) -> RequestView {
        match *self {
            Request::Mounts => RequestView::Mounts,
            Request::Open(step) => RequestView::Open(step@),
            Request::Inspect(name) => RequestView::Inspect(name@),
            Request::Enter(name) => RequestView::Enter(name@),
            Request::Sweep(action) => RequestView::Sweep(action@),
            Request::Remove(way, name) => RequestView::Remove(way, name@),
            Request::Done => RequestView::Done,
            Request::Failed(fault) => RequestView::Failed(fault@),
        }
    }
}

/// What came of a [`Request`].
#[derive(Debug)]
pub enum Reply {
    /// These are mounted, and the target is a mount point or is none.
    Mounts { mounts: Vec<PathBuf>, mount_point: bool },
    /// The directory was opened.
    Opened,
    /// It is a link, or no directory.
    NotDirectory,
    /// The target is this.
    Is(TargetKind),
    /// The directory was opened; the one it is in, and it, live here.
    Entered { parent: Volume, top: Volume },
    /// This came of an action in a directory being emptied.
    Swept(Event),
    /// The target is gone.
    Removed,
    /// It failed.
    Failed(Fault),
}

/// What a [`Reply`] stands for.
pub enum ReplyView {
    Mounts { mounts: Seq<PathView>, mount_point: bool },
    Opened,
    NotDirectory,
    Is(TargetKind),
    Entered { parent: Volume, top: Volume },
    Swept(EventView),
    Removed,
    Failed(FaultView),
}

impl View for Reply {
    type V = ReplyView;

    open spec fn view(&self) -> ReplyView {
        match *self {
            Reply::Mounts { mounts, mount_point } => ReplyView::Mounts {
                mounts: mounts.deep_view(),
                mount_point,
            },
            Reply::Opened => ReplyView::Opened,
            Reply::NotDirectory => ReplyView::NotDirectory,
            Reply::Is(kind) => ReplyView::Is(kind),
            Reply::Entered { parent, top } => ReplyView::Entered { parent, top },
            Reply::Swept(event) => ReplyView::Swept(event@),
            Reply::Removed => ReplyView::Removed,
            Reply::Failed(fault) => ReplyView::Failed(fault@),
        }
    }
}

// ---------------------------------------------------------------------
// From stage to stage.
// ---------------------------------------------------------------------

/// The target's own name, where it has one.
pub open spec fn own_name(path: PathView) -> Seq<u8> {
    match path::last_name(path.parts) {
        Some(name) => name,
        None => seq![],
    }
}

/// What a deletion asks for next.
pub open spec fn next_request(deletion: DeletionView) -> RequestView {
    match deletion.stage {
        StageView::Boundaries => RequestView::Mounts,
        StageView::Down { steps, next } => RequestView::Open(steps[next as int]),
        StageView::Kind => RequestView::Inspect(own_name(deletion.path)),
        StageView::Enter => RequestView::Enter(own_name(deletion.path)),
        StageView::Empty(sweep) => RequestView::Sweep(sweep::next_action(sweep)),
        StageView::Last(way) => RequestView::Remove(way, own_name(deletion.path)),
        StageView::Done => RequestView::Done,
        StageView::Failed(fault) => RequestView::Failed(fault),
    }
}

/// Whether `reply` is what can come of `request`. A step that leads nowhere
/// can only fail.
pub open spec fn fits(request: RequestView, reply: ReplyView) -> bool {
    match request {
        RequestView::Mounts => reply is Mounts || reply is Failed,
        RequestView::Open(step) => match step {
            StepView::Below(_) => reply is Opened || reply is NotDirectory || reply is Failed,
            StepView::BadRoot | StepView::BadTarget => reply is Failed,
            _ => reply is Opened || reply is Failed,
        },
        RequestView::Inspect(_) => reply is Is || reply is Failed,
        RequestView::Enter(_) => reply is Entered || reply is Failed,
        RequestView::Sweep(action) => reply matches ReplyView::Swept(event) && sweep::answers(
            action,
            event,
        ),
        RequestView::Remove(_, _) => reply is Removed || reply is Failed,
        RequestView::Done | RequestView::Failed(_) => false,
    }
}

/// On the way down, with the step at `next` to take; at the target, where
/// none is left.
pub open spec fn down_from(path: PathView, steps: Seq<StepView>, next: nat) -> StageView {
    if next >= steps.len() {
        StageView::Kind
    } else if steps[next as int] is BadTarget {
        StageView::Failed(fault::refused(descent::not_marked(path)))
    } else {
        StageView::Down { steps, next }
    }
}

/// At the start of the way down.
pub open spec fn down(platform: Platform, path: PathView, root: PathView) -> StageView {
    match descent::way_to(platform, path, root) {
        Ok(steps) => down_from(path, steps, 0),
        Err(reason) => StageView::Failed(fault::refused(reason)),
    }
}

/// Where a deletion begins. Only Linux is asked what is mounted, and Windows
/// removes by the path, without a way down.
pub open spec fn first_stage(platform: Platform, path: PathView, root: PathView) -> StageView {
    match platform {
        Platform::Linux => StageView::Boundaries,
        Platform::MacOs => down(platform, path, root),
        Platform::Windows => StageView::Kind,
    }
}

/// What follows once it is known what the target is. A link is never
/// followed.
pub open spec fn stage_for(platform: Platform, kind: TargetKind) -> StageView {
    match platform {
        Platform::Windows => StageView::Last(
            match kind {
                TargetKind::Directory => LastWay::Tree,
                TargetKind::DirectoryLink => LastWay::Link,
                TargetKind::Other => LastWay::Unlink,
            },
        ),
        _ => match kind {
            TargetKind::Directory => StageView::Enter,
            _ => StageView::Last(LastWay::Unlink),
        },
    }
}

/// What follows in a directory that is being emptied.
pub open spec fn swept_to(sweep: SweepView) -> StageView {
    match sweep.phase {
        sweep::PhaseView::Done => StageView::Last(LastWay::Directory),
        sweep::PhaseView::Stopped(fault) => StageView::Failed(fault),
        _ => StageView::Empty(sweep),
    }
}

/// The stage after what was asked for came to `reply`.
pub open spec fn next_stage(deletion: DeletionView, reply: ReplyView) -> StageView {
    let DeletionView { platform, path, root, stage } = deletion;
    match (stage, reply) {
        (StageView::Empty(sweep), ReplyView::Swept(event)) => swept_to(
            sweep::sweep_step(sweep, event),
        ),
        (_, ReplyView::Failed(fault)) => StageView::Failed(fault),
        (StageView::Boundaries, ReplyView::Mounts { mounts, mount_point }) => {
            match mounts::boundary_refusal(path, Ok(mounts), mount_point) {
                Some(reason) => StageView::Failed(fault::refused(reason)),
                None => down(platform, path, root),
            }
        },
        (StageView::Down { steps, next }, ReplyView::Opened) => down_from(path, steps, next + 1),
        (StageView::Down { steps, next }, ReplyView::NotDirectory) => StageView::Failed(
            fault::refused(descent::changed_since(path, steps[next as int]->Below_0)),
        ),
        (StageView::Kind, ReplyView::Is(kind)) => stage_for(platform, kind),
        (StageView::Enter, ReplyView::Entered { parent, top }) => if sweep::same_volume(
            platform,
            parent,
            top,
        ) {
            StageView::Empty(sweep::sweep_start(platform, path, top))
        } else {
            StageView::Failed(fault::refused(sweep::mounted_there(path)))
        },
        (StageView::Last(_), ReplyView::Removed) => StageView::Done,
        (stage, _) => stage,
    }
}

/// A deletion after what it asked for came to `reply`.
pub open spec fn deletion_step(deletion: DeletionView, reply: ReplyView) -> DeletionView {
    DeletionView { stage: next_stage(deletion, reply), ..deletion }
}

/// On the way down, with the step at `next` to take.
fn go_down(path: &PathBuf, steps: Vec<Step>, next: usize) -> (r: Stage)
    ensures
        r@ == down_from(path@, steps.deep_view(), next as nat),
{
    assert(steps.deep_view().len() == steps.len());
    if next >= steps.len() {
        return Stage::Kind;
    }
    assert(steps.deep_view()[next as int] == steps@[next as int]@);
    let bad: bool = match &steps[next] {
        Step::BadTarget => true,
        _ => false,
    };
    if bad {
        Stage::Failed(Fault::refusal(descent::say_not_marked(path)))
    } else {
        Stage::Down { steps, next }
    }
}

/// At the start of the way down.
fn start_down(platform: Platform, path: &PathBuf, root: &PathBuf) -> (r: Stage)
    ensures
        r@ == down(platform, path@, root@),
{
    match descent::open_parent(platform, path, root) {
        Ok((steps, _)) => go_down(path, steps, 0),
        Err(reason) => Stage::Failed(Fault::refusal(reason)),
    }
}

/// What follows in a directory that is being emptied.
fn go_on(sweep: Sweep) -> (r: Stage)
    ensures
        r@ == swept_to(sweep@),
{
    match sweep.phase {
        sweep::Phase::Done => Stage::Last(LastWay::Directory),
        sweep::Phase::Stopped(fault) => Stage::Failed(fault),
        _ => Stage::Empty(sweep),
    }
}

/// Start removing `path`, marked below `root`, for good, the way
/// `rm -rf --one-file-system` does: a link is unlinked, never followed, and
/// nothing on another filesystem is touched.
pub fn remove_permanently(platform: Platform, path: PathBuf, root: PathBuf) -> (r: Deletion)
    ensures
        r@ == (DeletionView {
            platform,
            path: path@,
            root: root@,
            stage: first_stage(platform, path@, root@),
        }),
        r@.wf(),
{
    let stage = match platform {
        Platform::Linux => Stage::Boundaries,
        Platform::MacOs => start_down(platform, &path, &root),
        Platform::Windows => Stage::Kind,
    };
    Deletion { platform, path, root, stage }
}

impl Deletion {
    /// The target's own name, where it has one.
    fn name(&self) -> (r: Vec<u8>)
        ensures
            r@ == own_name(self@.path),
    {
        match self.path.file_name() {
            Some(name) => path::copy_bytes(name),
            None => Vec::new(),
        }
    }

    /// What is asked for next.
    pub fn request(&self) -> (r: Request)
        requires
            self@.wf(),
        ensures
            r@ == next_request(self@),
    {
        match &self.stage {
            Stage::Boundaries => Request::Mounts,
            Stage::Down { steps, next } => {
                assert(steps.deep_view().len() == steps.len());
                assert(steps.deep_view()[*next as int] == steps@[*next as int]@);
                Request::Open(steps[*next].clone())
            },
            Stage::Kind => Request::Inspect(self.name()),
            Stage::Enter => Request::Enter(self.name()),
            Stage::Empty(sweep) => Request::Sweep(sweep.action()),
            Stage::Last(way) => Request::Remove(*way, self.name()),
            Stage::Done => Request::Done,
            Stage::Failed(fault) => Request::Failed(fault.clone()),
        }
    }

    /// Take in what came of the last request.
    pub fn step(self, reply: Reply) -> (r: Deletion)
        requires
            self@.wf(),
            fits(next_request(self@), reply@),
        ensures
            r@ == deletion_step(self@, reply@),
            r@.wf(),
    {
        let Deletion { platform, path, root, stage } = self;
        let stage = match (stage, reply) {
            (Stage::Empty(mut sweep), Reply::Swept(event)) => {
                sweep.step(event);
                go_on(sweep)
            },
            (_, Reply::Failed(fault)) => Stage::Failed(fault),
            (Stage::Boundaries, Reply::Mounts { mounts, mount_point }) => {
                match mounts::ensure_linux_mount_boundaries(&path, &Ok(mounts), mount_point) {
                    Ok(_) => start_down(platform, &path, &root),
                    Err(reason) => Stage::Failed(Fault::refusal(reason)),
                }
            },
            (Stage::Down { steps, next }, Reply::Opened) => {
                assert(steps.deep_view().len() == steps.len());
                go_down(&path, steps, next + 1)
            },
            (Stage::Down { steps, next }, Reply::NotDirectory) => {
                assert(steps.deep_view()[next as int] == steps@[next as int]@);
                match &steps[next] {
                    Step::Below(part) => Stage::Failed(
                        Fault::refusal(descent::say_changed(&path, part.as_slice())),
                    ),
                    _ => Stage::Down { steps, next },
                }
            },
            (Stage::Kind, Reply::Is(kind)) => match platform {
                Platform::Windows => Stage::Last(
                    match kind {
                        TargetKind::Directory => LastWay::Tree,
                        TargetKind::DirectoryLink => LastWay::Link,
                        TargetKind::Other => LastWay::Unlink,
                    },
                ),
                _ => match kind {
                    TargetKind::Directory => Stage::Enter,
                    _ => Stage::Last(LastWay::Unlink),
                },
            },
            (Stage::Enter, Reply::Entered { parent, top }) => {
                match Sweep::start(platform, &path, &parent, &top) {
                    Ok(sweep) => Stage::Empty(sweep),
                    Err(fault) => Stage::Failed(fault),
                }
            },
            (Stage::Last(_), Reply::Removed) => Stage::Done,
            (stage, _) => stage,
        };
        Deletion { platform, path, root, stage }
    }
}

// ---------------------------------------------------------------------
// What holds of every deletion.
// ---------------------------------------------------------------------

/// A deletion at its start.
pub open spec fn deletion_start(
    platform: Platform,
    path: PathView,
    root: PathView,
) -> DeletionView {
    DeletionView { platform, path, root, stage: first_stage(platform, path, root) }
}

/// A deletion after `replies`.
pub open spec fn deletion_after(deletion: DeletionView, replies: Seq<ReplyView>) -> DeletionView
    decreases replies.len(),
{
    if replies.len() == 0 {
        deletion
    } else {
        deletion_step(deletion_after(deletion, replies.drop_last()), replies.last())
    }
}

/// Each of `replies` is what can come of the request it is for.
pub open spec fn all_fit(deletion: DeletionView, replies: Seq<ReplyView>) -> bool
    decreases replies.len(),
{
    replies.len() > 0 ==> {
        let front = replies.drop_last();
        &&& all_fit(deletion, front)
        &&& fits(next_request(deletion_after(deletion, front)), replies.last())
    }
}

/// Doing what is asked takes something away.
pub open spec fn takes_away(request: RequestView) -> bool {
    match request {
        RequestView::Remove(_, _) => true,
        RequestView::Sweep(action) => action is Unlink || action is RemoveDirectory,
        _ => false,
    }
}

/// How many replies tell what is mounted.
pub open spec fn boundary_replies(platform: Platform) -> int {
    if platform is Linux {
        1
    } else {
        0
    }
}

/// How many replies come before what the target is: what is mounted, and the
/// way down.
pub open spec fn kind_at(platform: Platform, path: PathView, root: PathView) -> int {
    if platform is Windows {
        0
    } else {
        match descent::way_to(platform, path, root) {
            Ok(steps) => boundary_replies(platform) + steps.len(),
            Err(_) => 0,
        }
    }
}

/// By the first of `replies`, nothing is mounted on the target or inside it,
/// where that is asked.
pub open spec fn unmounted(platform: Platform, path: PathView, replies: Seq<ReplyView>) -> bool {
    platform is Linux ==> {
        &&& replies.len() > 0
        &&& replies[0] matches ReplyView::Mounts { mounts, mount_point }
            && mounts::boundary_refusal(path, Ok(mounts), mount_point) is None
    }
}

/// By `replies`, nothing is mounted on the target or inside it, and each
/// directory on the way down to it was opened, in order.
pub open spec fn came_down(
    platform: Platform,
    path: PathView,
    root: PathView,
    replies: Seq<ReplyView>,
) -> bool {
    platform is Windows || (descent::way_to(platform, path, root) matches Ok(steps) && {
        &&& replies.len() >= boundary_replies(platform) + steps.len()
        &&& unmounted(platform, path, replies)
        &&& forall|i: int|
            0 <= i < steps.len() ==> (#[trigger] replies[boundary_replies(platform) + i])
                is Opened
    })
}

/// The target is known to be of this kind.
pub open spec fn known_as(
    platform: Platform,
    path: PathView,
    root: PathView,
    replies: Seq<ReplyView>,
    kind: TargetKind,
) -> bool {
    let k = kind_at(platform, path, root);
    &&& came_down(platform, path, root, replies)
    &&& replies.len() > k
    &&& replies[k] == ReplyView::Is(kind)
}

/// What came of the actions in the directory being emptied.
pub open spec fn swept(replies: Seq<ReplyView>) -> Seq<EventView> {
    replies.map_values(|reply: ReplyView| reply->Swept_0)
}

/// The target is a directory on the volume it is in, and `sweep` is what is
/// left of emptying it.
pub open spec fn emptying(
    platform: Platform,
    path: PathView,
    root: PathView,
    replies: Seq<ReplyView>,
    sweep: SweepView,
) -> bool {
    let k = kind_at(platform, path, root) + 1;
    &&& known_as(platform, path, root, replies, TargetKind::Directory)
    &&& replies.len() > k
    &&& replies[k] matches ReplyView::Entered { parent, top } && {
        &&& sweep::same_volume(platform, parent, top)
        &&& sweep == sweep::sweep_after(
            sweep::sweep_start(platform, path, top),
            swept(replies.skip(k + 1)),
        )
    }
}

/// How the stage of a deletion follows from `replies`.
pub open spec fn told(
    platform: Platform,
    path: PathView,
    root: PathView,
    replies: Seq<ReplyView>,
    stage: StageView,
) -> bool {
    let k = kind_at(platform, path, root);
    match stage {
        StageView::Boundaries => platform is Linux && replies.len() == 0,
        StageView::Down { steps, next } => {
            &&& platform !is Windows
            &&& descent::way_to(platform, path, root) == Ok::<Seq<StepView>, Seq<char>>(steps)
            &&& next < steps.len()
            &&& steps[next as int] !is BadTarget
            &&& replies.len() == boundary_replies(platform) + next
            &&& unmounted(platform, path, replies)
            &&& forall|i: int|
                0 <= i < next ==> (#[trigger] replies[boundary_replies(platform) + i]) is Opened
        },
        StageView::Kind => came_down(platform, path, root, replies) && replies.len() == k,
        StageView::Enter => known_as(platform, path, root, replies, TargetKind::Directory)
            && platform !is Windows && replies.len() == k + 1,
        StageView::Empty(sweep) => platform !is Windows && sweep.wf() && emptying(
            platform,
            path,
            root,
            replies,
            sweep,
        ),
        StageView::Last(way) => match way {
            LastWay::Unlink => exists|kind: TargetKind|
                (platform is Windows ==> kind is Other) && kind !is Directory
                    && #[trigger] known_as(platform, path, root, replies, kind),
            LastWay::Directory => platform !is Windows && exists|sweep: SweepView|
                sweep.phase is Done && #[trigger] emptying(platform, path, root, replies, sweep),
            LastWay::Tree => platform is Windows && known_as(
                platform,
                path,
                root,
                replies,
                TargetKind::Directory,
            ),
            LastWay::Link => platform is Windows && known_as(
                platform,
                path,
                root,
                replies,
                TargetKind::DirectoryLink,
            ),
        },
        StageView::Done => exists|kind: TargetKind| #[trigger]
            known_as(platform, path, root, replies, kind),
        StageView::Failed(_) => true,
    }
}

/// How a deletion has come to its stage, whatever came of what it asked for.
pub proof fn lemma_deletion_told(
    platform: Platform,
    path: PathView,
    root: PathView,
    replies: Seq<ReplyView>,
)
    requires
        all_fit(deletion_start(platform, path, root), replies),
    ensures
        ({
            let deletion = deletion_after(deletion_start(platform, path, root), replies);
            &&& deletion.platform == platform
            &&& deletion.path == path
            &&& deletion.root == root
            &&& told(platform, path, root, replies, deletion.stage)
        }),
    decreases replies.len(),
{
    let start = deletion_start(platform, path, root);
    if replies.len() == 0 {
        lemma_told_down(platform, path, root, replies);
    } else {
        let front = replies.drop_last();
        let reply = replies.last();
        lemma_deletion_told(platform, path, root, front);
        let before = deletion_after(start, front);
        assert(replies =~= front.push(reply));
        lemma_told_step(platform, path, root, front, before, reply);
    }
}

/// The way down begins once nothing is in the way of it.
proof fn lemma_told_down(
    platform: Platform,
    path: PathView,
    root: PathView,
    replies: Seq<ReplyView>,
)
    requires
        platform !is Windows ==> replies.len() == boundary_replies(platform) && unmounted(
            platform,
            path,
            replies,
        ) || replies.len() == 0,
    ensures
        platform !is Windows && replies.len() == boundary_replies(platform) ==> told(
            platform,
            path,
            root,
            replies,
            down(platform, path, root),
        ),
        replies.len() == 0 ==> told(
            platform,
            path,
            root,
            replies,
            first_stage(platform, path, root),
        ),
{
}

proof fn lemma_told_step(
    platform: Platform,
    path: PathView,
    root: PathView,
    front: Seq<ReplyView>,
    before: DeletionView,
    reply: ReplyView,
)
    requires
        before.platform == platform,
        before.path == path,
        before.root == root,
        told(platform, path, root, front, before.stage),
        fits(next_request(before), reply),
    ensures
        told(platform, path, root, front.push(reply), next_stage(before, reply)),
{
    let replies = front.push(reply);
    let k = kind_at(platform, path, root);
    match before.stage {
        StageView::Boundaries => {
            if next_stage(before, reply) !is Failed {
                lemma_told_down(platform, path, root, replies);
            }
        },
        StageView::Down { steps, next } => {
            assert forall|i: int| 0 <= i < next + 1 && reply is Opened implies (
            #[trigger] replies[boundary_replies(platform) + i]) is Opened by {
                if i < next {
                    assert(replies[boundary_replies(platform) + i] == front[boundary_replies(
                        platform,
                    ) + i]);
                }
            }
        },
        StageView::Kind => {
            if let ReplyView::Is(kind) = reply {
                lemma_came_down_more(platform, path, root, front, reply);
                assert(known_as(platform, path, root, replies, kind));
            }
        },
        StageView::Enter => {
            lemma_came_down_more(platform, path, root, front, reply);
            assert(replies[k] == front[k]);
            if let ReplyView::Entered { parent, top } = reply {
                assert(replies.skip(k + 2) =~= Seq::<ReplyView>::empty());
                assert(swept(replies.skip(k + 2)) =~= Seq::<EventView>::empty());
            }
        },
        StageView::Empty(sweep) => {
            lemma_came_down_more(platform, path, root, front, reply);
            assert(replies[k] == front[k] && replies[k + 1] == front[k + 1]);
            let top = front[k + 1]->top;
            let old_events = swept(front.skip(k + 2));
            let event = reply->Swept_0;
            assert(swept(replies.skip(k + 2)) =~= old_events.push(event));
            sweep::lemma_sweep_after_push(
                sweep::sweep_start(platform, path, top),
                old_events,
                event,
            );
            let after = sweep::sweep_step(sweep, event);
            assert(emptying(platform, path, root, replies, after));
            sweep::lemma_sweep_wf(sweep, event);
        },
        StageView::Last(way) => {
            lemma_came_down_more(platform, path, root, front, reply);
            let kind = choose|kind: TargetKind| #[trigger]
                known_as(platform, path, root, front, kind);
            assert(known_as(platform, path, root, front, kind)) by {
                match way {
                    LastWay::Directory => {
                        let sweep = choose|sweep: SweepView|
                            sweep.phase is Done && #[trigger] emptying(
                                platform,
                                path,
                                root,
                                front,
                                sweep,
                            );
                        assert(known_as(platform, path, root, front, TargetKind::Directory));
                    },
                    _ => {},
                }
            }
            assert(replies[k] == front[k]);
            assert(known_as(platform, path, root, replies, kind));
        },
        _ => {},
    }
}

proof fn lemma_came_down_more(
    platform: Platform,
    path: PathView,
    root: PathView,
    front: Seq<ReplyView>,
    reply: ReplyView,
)
    requires
        came_down(platform, path, root, front),
    ensures
        came_down(platform, path, root, front.push(reply)),
{
    let replies = front.push(reply);
    if let Ok(steps) = descent::way_to(platform, path, root) {
        assert forall|i: int| 0 <= i < steps.len() && platform !is Windows implies (
        #[trigger] replies[boundary_replies(platform) + i]) is Opened by {
            assert(replies[boundary_replies(platform) + i] == front[boundary_replies(platform)
                + i]);
        }
    }
}

/// Nothing is taken away before the way was cleared: on Linux, that nothing
/// is mounted on the target or inside it; on every Unix, that each directory
/// on the way down was opened; and everywhere, that it is known what the
/// target is.
pub proof fn lemma_nothing_taken_early(
    platform: Platform,
    path: PathView,
    root: PathView,
    replies: Seq<ReplyView>,
)
    requires
        all_fit(deletion_start(platform, path, root), replies),
        takes_away(next_request(deletion_after(deletion_start(platform, path, root), replies))),
    ensures
        came_down(platform, path, root, replies),
        exists|kind: TargetKind| #[trigger] known_as(platform, path, root, replies, kind),
{
    lemma_deletion_told(platform, path, root, replies);
    let deletion = deletion_after(deletion_start(platform, path, root), replies);
    match deletion.stage {
        StageView::Empty(sweep) => {
            assert(known_as(platform, path, root, replies, TargetKind::Directory));
        },
        StageView::Last(LastWay::Directory) => {
            let sweep = choose|sweep: SweepView|
                sweep.phase is Done && #[trigger] emptying(platform, path, root, replies, sweep);
            assert(known_as(platform, path, root, replies, TargetKind::Directory));
        },
        _ => {},
    }
}

/// A directory on Unix goes last: only once all that was in it is gone, by a
/// sweep of it that has ended well.
pub proof fn lemma_directory_goes_last(
    platform: Platform,
    path: PathView,
    root: PathView,
    replies: Seq<ReplyView>,
)
    requires
        all_fit(deletion_start(platform, path, root), replies),
        next_request(deletion_after(deletion_start(platform, path, root), replies))
            == RequestView::Remove(LastWay::Directory, own_name(path)),
    ensures
        exists|sweep: SweepView|
            sweep.phase is Done && #[trigger] emptying(platform, path, root, replies, sweep),
{
    lemma_deletion_told(platform, path, root, replies);
}

/// A deletion that has failed, or is done, asks for nothing more; and it is
/// done only once the target itself was taken away.
pub proof fn lemma_deletion_ends(deletion: DeletionView, reply: ReplyView)
    requires
        fits(next_request(deletion), reply),
    ensures
        deletion.stage !is Done && deletion.stage !is Failed,
        next_stage(deletion, reply) is Done <==> deletion.stage is Last && reply is Removed,
        reply is Failed ==> next_stage(deletion, reply) is Failed,
{
}

} // verus!
