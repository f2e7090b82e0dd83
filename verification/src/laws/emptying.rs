//! What holds of every permanent removal.

use vstd::prelude::*;

use crate::deletion;
use crate::deletion::{
    Deletion, DeletionView, LastWay, Reply, ReplyView, Request, RequestView, StageView, TargetKind,
};
use crate::descent;
use crate::descent::{Step, StepView};
use crate::fault;
use crate::fault::{Fault, FaultView};
use crate::guards;
use crate::laws::guarding;
use crate::mounts;
use crate::path;
use crate::path::{Part, PathBuf, PathView};
use crate::platform::Platform;
use crate::sweep;
use crate::sweep::{
    Action, ActionView, Entry, EntryView, Event, EventView, FrameView, PhaseView, Sweep, SweepView,
    Volume,
};
use crate::text;

verus! {

/// What is worked through once a directory is listed is every entry of the
/// listing but those called `.` and `..`, in the listed order and from the
/// first: no other name is left out, and nothing else is touched by the
/// listing.
pub proof fn lemma_listing_is_worked_through(sweep: SweepView, entries: Seq<EntryView>)
    requires
        sweep.frames.len() > 0,
    ensures
        ({
            let after = sweep::sweep_step(sweep, EventView::Listed(entries));
            let here = after.frames.last();
            &&& here.entries == entries.filter(
                |e: EntryView| e.name != seq![46u8] && e.name != seq![46u8, 46u8],
            )
            &&& forall|e: EntryView| #[trigger]
                here.entries.contains(e) <==> entries.contains(e) && e.name != seq![46u8] && e.name
                    != seq![46u8, 46u8]
            &&& here.entries.len() + entries.filter(
                |e: EntryView| e.name == seq![46u8] || e.name == seq![46u8, 46u8],
            ).len() == entries.len()
            &&& here.next == 0
            &&& here.path == sweep.frames.last().path
            &&& after.frames.drop_last() == sweep.frames.drop_last()
            &&& after.platform == sweep.platform
            &&& after.top == sweep.top
            &&& after.phase is Done <==> sweep.frames.len() == 1 && (forall|i: int|
                0 <= i < entries.len() ==> (#[trigger] entries[i]).name == seq![46u8]
                    || entries[i].name == seq![46u8, 46u8])
            &&& after.phase is Done || after.phase is Work
        }),
{
    let after = sweep::sweep_step(sweep, EventView::Listed(entries));
    let here = after.frames.last();
    let stays = |e: EntryView| e.name != seq![46u8] && e.name != seq![46u8, 46u8];
    sweep::lemma_without_dots(entries);
    assert(here.entries == entries.filter(stays));
    assert(after.frames.drop_last() =~= sweep.frames.drop_last());
    assert forall|e: EntryView| #[trigger]
        here.entries.contains(e) <==> entries.contains(e) && stays(e) by {
        if here.entries.contains(e) {
            entries.lemma_filter_contains_rev(stays, e);
            let i = choose|i: int| 0 <= i < here.entries.len() && here.entries[i] == e;
            entries.lemma_filter_pred(stays, i);
        }
        if entries.contains(e) && stays(e) {
            let i = choose|i: int| 0 <= i < entries.len() && entries[i] == e;
            entries.lemma_filter_contains(stays, i);
        }
    }
    if forall|i: int|
        0 <= i < entries.len() ==> (#[trigger] entries[i]).name == seq![46u8] || entries[i].name
            == seq![46u8, 46u8] {
        if here.entries.len() > 0 {
            let e = here.entries[0];
            assert(here.entries.contains(e));
            let i = choose|i: int| 0 <= i < entries.len() && entries[i] == e;
            assert(entries[i] == e);
        }
    } else {
        let i = choose|i: int|
            0 <= i < entries.len() && !((#[trigger] entries[i]).name == seq![46u8]
                || entries[i].name == seq![46u8, 46u8]);
        assert(entries.contains(entries[i]));
        assert(here.entries.contains(entries[i]));
    }
}

/// Two directories are on the same volume: on Linux exactly where both have
/// the same mount, whatever their devices; elsewhere where the mounts are
/// the same, or, where one is not known, the devices.
pub proof fn lemma_same_volume(platform: Platform, one: Volume, two: Volume)
    ensures
        platform is Linux ==> (sweep::same_volume(platform, one, two) <==> one.mount is Some
            && one.mount == two.mount),
        one.mount is Some && two.mount is Some ==> (sweep::same_volume(platform, one, two)
            <==> one.mount == two.mount),
        !(platform is Linux) && (one.mount is None || two.mount is None) ==> (sweep::same_volume(
            platform,
            one,
            two,
        ) <==> one.device == two.device),
        sweep::same_volume(platform, one, two) == sweep::same_volume(platform, two, one),
{
}

/// The entry at hand is the one that is worked on: one known to be no
/// directory is unlinked, any other is opened first; where it then turns out
/// to be none, exactly it is unlinked.
pub proof fn lemma_entry_at_hand(sweep: SweepView)
    requires
        sweep.wf(),
        sweep.frames.last().next < sweep.frames.last().entries.len(),
    ensures
        ({
            let here = sweep.frames.last();
            let entry = here.entries[here.next as int];
            &&& sweep.phase is Work ==> sweep::next_action(sweep) == if entry.kind is Directory
                || entry.kind is Unknown {
                ActionView::Open(entry.name)
            } else {
                ActionView::Unlink(entry.name)
            }
            &&& sweep.phase is Unlink ==> sweep::next_action(sweep) == ActionView::Unlink(
                entry.name,
            )
            &&& sweep.phase is Work && sweep::next_action(sweep) is Open ==> {
                let after = sweep::sweep_step(sweep, EventView::NotDirectory);
                &&& sweep::next_action(after) == ActionView::Unlink(entry.name)
                &&& after.frames == sweep.frames
            }
        }),
{
}

/// What was taken away is passed over, and nothing else is: the next entry
/// of the same directory is at hand then, and a directory that is gone
/// leaves the one it was in with its own next entry at hand.
pub proof fn lemma_next_in_turn(sweep: SweepView)
    requires
        sweep.wf(),
        sweep.phase is Work || sweep.phase is Unlink,
        !(sweep::next_action(sweep) is Open),
    ensures
        ({
            let after = sweep::sweep_step(sweep, EventView::Removed);
            let gone = sweep::next_action(sweep) is RemoveDirectory;
            let n = sweep.frames.len() - (if gone {
                1int
            } else {
                0
            });
            &&& after.frames.len() == n
            &&& forall|i: int| 0 <= i < n - 1 ==> #[trigger] after.frames[i] == sweep.frames[i]
            &&& after.frames[n - 1].path == sweep.frames[n - 1].path
            &&& after.frames[n - 1].entries == sweep.frames[n - 1].entries
            &&& after.frames[n - 1].next == sweep.frames[n - 1].next + 1
            &&& gone <==> sweep.frames.last().next == sweep.frames.last().entries.len()
            &&& after.phase is Done <==> n == 1 && after.frames[0].next
                == after.frames[0].entries.len()
            &&& after.phase is Done || after.phase is Work
            &&& after.platform == sweep.platform
            &&& after.top == sweep.top
        }),
{
}

/// A directory that was opened is listed next, below the path of the one it
/// is in, where it is on the volume that is emptied; where it is not, the
/// sweep stops there and says so, with everything else as it was.
pub proof fn lemma_opened_is_listed(sweep: SweepView, volume: Volume)
    requires
        sweep.wf(),
        sweep.phase is Work,
        sweep::next_action(sweep) is Open,
    ensures
        ({
            let after = sweep::sweep_step(sweep, EventView::Opened(volume));
            let here = sweep.frames.last();
            let entry = here.entries[here.next as int];
            let at = path::joined(sweep.platform, here.path, seq![Part::Name(entry.name)]);
            let same = if sweep.platform is Linux || (sweep.top.mount is Some && volume.mount
                is Some) {
                sweep.top.mount is Some && sweep.top.mount == volume.mount
            } else {
                sweep.top.device == volume.device
            };
            &&& same ==> {
                &&& sweep::next_action(after) is List
                &&& after.frames.len() == sweep.frames.len() + 1
                &&& after.frames.drop_last() == sweep.frames
                &&& after.frames.last().path == at
                &&& after.top == sweep.top
                &&& after.platform == sweep.platform
            }
            &&& !same ==> {
                &&& after.frames == sweep.frames
                &&& sweep::next_action(after) == ActionView::Stopped(
                    fault::refused(
                        "stopped at "@ + text::shown(at.text)
                            + ": another filesystem is mounted there, and nothing on it was touched"@,
                    ),
                )
            }
        }),
{
    let after = sweep::sweep_step(sweep, EventView::Opened(volume));
    if after.phase is List {
        assert(after.frames.drop_last() =~= sweep.frames);
    }
}

/// What fails is where a sweep stops, with that fault; no other answer stops
/// it but a directory on another volume.
pub proof fn lemma_only_trouble_stops(sweep: SweepView, event: EventView)
    requires
        sweep.wf(),
        sweep::answers(sweep::next_action(sweep), event),
    ensures
        ({
            let after = sweep::sweep_step(sweep, event);
            &&& event matches EventView::Failed(fault) ==> after.phase == PhaseView::Stopped(fault)
                && after.frames == sweep.frames
            &&& after.phase is Stopped ==> event is Failed || (event matches EventView::Opened(
                volume,
            ) && !(sweep.top.mount is Some && sweep.top.mount == volume.mount) && (
            sweep.top.device != volume.device || sweep.platform is Linux || (sweep.top.mount
                is Some && volume.mount is Some)))
        }),
{
}

/// A permanent removal comes to nothing only where something failed, where
/// what was a directory no longer is one, where something is mounted on the
/// target or in it, where there is no way down to it from the scanned root,
/// or where it is, or holds, a directory on another volume.
pub proof fn lemma_fails_only_for_cause(deletion: DeletionView, reply: ReplyView)
    requires
        deletion.wf(),
        deletion::fits(deletion::next_request(deletion), reply),
        deletion::deletion_step(deletion, reply).stage is Failed,
    ensures
        ({
            let parts = deletion.path.parts;
            let key = guards::key(Platform::Linux, parts).parts;
            ||| reply is Failed
            ||| deletion.stage is Down && reply is NotDirectory
            ||| deletion.stage is Boundaries && (reply matches ReplyView::Mounts {
                mounts,
                mount_point,
            } && (mount_point || exists|i: int|
                0 <= i < mounts.len() && key.is_prefix_of(#[trigger] mounts[i].parts)))
            ||| deletion.stage is Boundaries && !(parts.len() > 0 && parts.last() is Name)
            ||| deletion.stage is Boundaries && !deletion.root.parts.is_prefix_of(
                parts.drop_last(),
            )
            ||| deletion.stage matches StageView::Down { steps, next } && next + 1 < steps.len()
                && steps[next as int + 1] is BadTarget
            ||| reply matches ReplyView::Entered { parent, top } && !(parent.mount is Some
                && parent.mount == top.mount) && (deletion.platform is Linux || parent.device
                != top.device || (parent.mount is Some && top.mount is Some))
            ||| reply matches ReplyView::Swept(EventView::Failed(_))
            ||| reply matches ReplyView::Swept(EventView::Opened(volume)) && (
            deletion.stage matches StageView::Empty(sweep) && !(sweep.top.mount is Some
                && sweep.top.mount == volume.mount))
        }),
{
    let parts = deletion.path.parts;
    let root = deletion.root.parts;
    match (deletion.stage, reply) {
        (StageView::Boundaries, ReplyView::Mounts { mounts, mount_point }) => {
            let key = guards::key(Platform::Linux, parts).parts;
            guarding::lemma_mount_found(key, mounts);
            if !mount_point && mounts::at_or_below(key, mounts) is None {
                assert(deletion::down(deletion.platform, deletion.path, deletion.root) is Failed);
                if parts.len() > 0 && parts.last() is Name {
                    guarding::lemma_inside(parts.drop_last(), root);
                    if path::inside(parts.drop_last(), root) {
                        assert(descent::way_to(deletion.platform, deletion.path, deletion.root)
                            is Ok);
                        let steps = descent::way_to(
                            deletion.platform,
                            deletion.path,
                            deletion.root,
                        )->Ok_0;
                        assert(steps[0] is Top || steps[0] is Root);
                    }
                }
            }
        },
        (StageView::Empty(sweep), ReplyView::Swept(event)) => {
            lemma_only_trouble_stops(sweep, event);
        },
        _ => {},
    }
}

/// Where nothing is in the way, a permanent removal goes from stage to
/// stage: once nothing is found mounted it goes down, one directory after
/// another, then asks what the target is; a directory is entered and
/// emptied, and anything else goes at once, a link never followed; and when
/// the target is taken away it is done.
pub proof fn lemma_goes_on(deletion: DeletionView)
    requires
        deletion.wf(),
    ensures
        ({
            let after = |reply: ReplyView| deletion::deletion_step(deletion, reply);
            let unix = !(deletion.platform is Windows);
            &&& forall|reply: ReplyView|
                {
                    let next = #[trigger] deletion::deletion_step(deletion, reply);
                    next.platform == deletion.platform && next.path == deletion.path && next.root
                        == deletion.root
                }
            &&& deletion.stage matches StageView::Down { steps, next } ==> {
                &&& deletion::next_request(deletion) == RequestView::Open(steps[next as int])
                &&& next + 1 == steps.len() ==> after(ReplyView::Opened).stage is Kind
                &&& next + 1 < steps.len() && steps[next as int + 1] !is BadTarget ==> after(
                    ReplyView::Opened,
                ).stage == (StageView::Down { steps, next: next + 1 })
            }
            &&& deletion.stage is Kind && unix ==> {
                &&& after(ReplyView::Is(TargetKind::Directory)).stage is Enter
                &&& after(ReplyView::Is(TargetKind::DirectoryLink)).stage == StageView::Last(
                    LastWay::Unlink,
                )
                &&& after(ReplyView::Is(TargetKind::Other)).stage == StageView::Last(
                    LastWay::Unlink,
                )
            }
            &&& deletion.stage is Kind && !unix ==> {
                &&& after(ReplyView::Is(TargetKind::Directory)).stage == StageView::Last(
                    LastWay::Tree,
                )
                &&& after(ReplyView::Is(TargetKind::DirectoryLink)).stage == StageView::Last(
                    LastWay::Link,
                )
                &&& after(ReplyView::Is(TargetKind::Other)).stage == StageView::Last(
                    LastWay::Unlink,
                )
            }
            &&& deletion.stage is Enter ==> forall|parent: Volume, top: Volume|
                (parent.mount is Some && parent.mount == top.mount) || (parent.mount is None
                    && !(deletion.platform is Linux) && parent.device == top.device)
                    ==> #[trigger] after(ReplyView::Entered { parent, top }).stage
                    == StageView::Empty(
                    SweepView {
                        platform: deletion.platform,
                        top,
                        frames: seq![
                            FrameView { path: deletion.path, entries: seq![], next: 0 },
                        ],
                        phase: PhaseView::List,
                    },
                )
            &&& deletion.stage matches StageView::Empty(sweep) ==> forall|event: EventView|
                {
                    let swept = sweep::sweep_step(sweep, event);
                    let next = #[trigger] after(ReplyView::Swept(event)).stage;
                    &&& swept.phase is Done ==> next == StageView::Last(LastWay::Directory)
                    &&& swept.phase matches PhaseView::Stopped(fault) ==> next
                        == StageView::Failed(fault)
                    &&& !(swept.phase is Done) && !(swept.phase is Stopped) ==> next
                        == StageView::Empty(swept)
                }
            &&& deletion.stage is Last ==> after(ReplyView::Removed).stage is Done
        }),
{
}

/// The name a target is inspected, entered and removed by is its own, the
/// last of its path.
pub proof fn lemma_taken_by_its_name(deletion: DeletionView)
    requires
        deletion.path.parts.len() > 0,
        deletion.path.parts.last() is Name,
    ensures
        ({
            let name = deletion.path.parts.last()->Name_0;
            &&& deletion.stage is Kind ==> deletion::next_request(deletion)
                == RequestView::Inspect(name)
            &&& deletion.stage is Enter ==> deletion::next_request(deletion) == RequestView::Enter(
                name,
            )
            &&& deletion.stage matches StageView::Last(way) ==> deletion::next_request(deletion)
                == RequestView::Remove(way, name)
        }),
{
}

/// A refusal has its reason and no kind of failure of its own.
pub proof fn lemma_refusal(reason: Seq<char>)
    ensures
        fault::refused(reason).text == reason,
        fault::refused(reason).kind is Other,
{
}

/// Where a deletion begins: on Linux with what is mounted, on macOS with the
/// way down, and on Windows with what the target is.
pub proof fn lemma_begins(platform: Platform, path: PathBuf, root: PathBuf, deletion: Deletion)
    requires
        call_ensures(deletion::remove_permanently, (platform, path, root), deletion),
    ensures
        deletion@.platform == platform,
        deletion@.path == path@,
        deletion@.root == root@,
        platform is Linux ==> deletion@.stage is Boundaries,
        platform is Windows ==> deletion@.stage is Kind,
        platform is MacOs ==> (match descent::way_to(platform, path@, root@) {
            Ok(steps) => deletion@.stage == (StageView::Down { steps, next: 0 }),
            Err(reason) => deletion@.stage == StageView::Failed(fault::refused(reason)),
        }),
{
}

/// There is a way down to a target exactly where it ends in a name and the
/// directory it is in is the scanned root or inside it; it starts at the top
/// of the filesystem on Linux and at the scanned root elsewhere.
pub proof fn lemma_way_exactly(platform: Platform, path: PathView, root: PathView)
    ensures
        ({
            let named = path.parts.len() > 0 && path.parts.last() is Name;
            let inside = root.parts.is_prefix_of(path.parts.drop_last());
            let way = descent::way_to(platform, path, root);
            &&& way is Ok <==> named && inside
            &&& !named ==> way == Err::<Seq<StepView>, Seq<char>>(
                text::shown(path.text) + " is not an absolute, normalized path"@,
            )
            &&& named && !inside ==> way == Err::<Seq<StepView>, Seq<char>>(
                text::shown(path.text) + " is not inside the scanned root "@ + text::shown(
                    root.text,
                ),
            )
            &&& way matches Ok(steps) ==> {
                &&& steps.len() > 0
                &&& platform is Linux ==> steps[0] is Top
                &&& !(platform is Linux) ==> steps[0] is Root
            }
        }),
{
    if path.parts.len() > 0 {
        guarding::lemma_inside(path.parts.drop_last(), root.parts);
    }
}

/// Once nothing is found mounted on the target or in it, a deletion goes on
/// the way down from its first step; where something is, or there is no way,
/// it fails and says why.
pub proof fn lemma_after_boundaries(
    deletion: DeletionView,
    mounts: Seq<PathView>,
    mount_point: bool,
)
    requires
        deletion.stage is Boundaries,
    ensures
        ({
            let after = deletion::deletion_step(
                deletion,
                ReplyView::Mounts { mounts, mount_point },
            ).stage;
            match mounts::boundary_refusal(deletion.path, Ok(mounts), mount_point) {
                Some(reason) => after == StageView::Failed(fault::refused(reason)),
                None => match descent::way_to(deletion.platform, deletion.path, deletion.root) {
                    Ok(steps) => after == (StageView::Down { steps, next: 0 }),
                    Err(reason) => after == StageView::Failed(fault::refused(reason)),
                },
            }
        }),
{
    lemma_way_exactly(deletion.platform, deletion.path, deletion.root);
}

/// What is said where a step below the root is no directory any more, where
/// the target leads nowhere, and where the target is on another volume than
/// the directory it is in; and whatever fails is told as it is.
pub proof fn lemma_failures_told(deletion: DeletionView, parent: Volume, top: Volume)
    requires
        deletion.wf(),
    ensures
        ({
            let path = text::shown(deletion.path.text);
            let after = |reply: ReplyView| deletion::deletion_step(deletion, reply).stage;
            &&& forall|fault: FaultView|
                !(deletion.stage is Empty) ==> #[trigger] after(ReplyView::Failed(fault))
                    == StageView::Failed(fault)
            &&& deletion.stage matches StageView::Down { steps, next } ==> {
                &&& steps[next as int] matches StepView::Below(name) ==> after(
                    ReplyView::NotDirectory,
                ) == StageView::Failed(
                    fault::refused(
                        path + " changed since the scan: "@ + text::shown(name)
                            + " is no longer a directory, so nothing was removed"@,
                    ),
                )
                &&& next + 1 < steps.len() && steps[next as int + 1] is BadTarget ==> after(
                    ReplyView::Opened,
                ) == StageView::Failed(
                    fault::refused(path + " is not an absolute, normalized path"@),
                )
            }
            &&& deletion.stage is Enter && !(parent.mount is Some && parent.mount == top.mount) && (
            deletion.platform is Linux || parent.device != top.device || (parent.mount is Some
                && top.mount is Some)) ==> after(ReplyView::Entered { parent, top })
                == StageView::Failed(
                fault::refused("refusing to remove mounted filesystem "@ + path),
            )
        }),
{
}

/// What a sweep and a deletion do is what is stated of them, one step at a
/// time: a listing leaves exactly the entries that are not `.` or `..`.
pub proof fn lemma_steps_taken(
    sweep: &mut Sweep,
    event: Event,
    entries: Vec<Entry>,
    asked: Action,
    deletion: Deletion,
    reply: Reply,
    after: Deletion,
    request: Request,
)
    ensures
        call_ensures(Sweep::step, (sweep, event), ()) ==> final(sweep)@ == sweep::sweep_step(
            old(sweep)@,
            event@,
        ),
        call_ensures(Sweep::step, (sweep, Event::Listed(entries)), ()) && old(sweep)@.frames.len()
            > 0 ==> final(sweep)@.frames.last().entries == entries.deep_view().filter(
            |e: EntryView| e.name != seq![46u8] && e.name != seq![46u8, 46u8],
        ),
        call_ensures(Sweep::action, (&*old(sweep),), asked) ==> asked@ == sweep::next_action(
            old(sweep)@,
        ),
        call_ensures(Deletion::step, (deletion, reply), after) ==> after@
            == deletion::deletion_step(deletion@, reply@),
        call_ensures(Deletion::request, (&deletion,), request) ==> request@
            == deletion::next_request(deletion@),
{
    if old(sweep)@.frames.len() > 0 {
        lemma_listing_is_worked_through(old(sweep)@, entries.deep_view());
    }
}

/// Whatever can come of what a sweep asks for is taken in: a failure always,
/// a listing, a directory that was opened or that is none, and an entry that
/// was removed, each where it was asked for and nowhere else.
pub proof fn lemma_answers_taken(action: ActionView, event: EventView)
    ensures
        sweep::answers(action, event) <==> match event {
            EventView::Failed(_) => !(action is Done) && !(action is Stopped),
            EventView::Listed(_) => action is List,
            EventView::Opened(_) => action is Open,
            EventView::NotDirectory => action is Open,
            EventView::Removed => action is Unlink || action is RemoveDirectory,
        },
{
}

/// The same of a deletion: every reply that its request can have is taken
/// in.
pub proof fn lemma_replies_taken(request: RequestView, reply: ReplyView)
    ensures
        deletion::fits(request, reply) <==> match reply {
            ReplyView::Failed(_) => !(request is Done) && !(request is Failed) && !(request
                is Sweep),
            ReplyView::Mounts { .. } => request is Mounts,
            ReplyView::Opened => request matches RequestView::Open(step) && step !is BadRoot && step
                !is BadTarget,
            ReplyView::NotDirectory => request matches RequestView::Open(step) && step is Below,
            ReplyView::Is(_) => request is Inspect,
            ReplyView::Entered { .. } => request is Enter,
            ReplyView::Swept(event) => request matches RequestView::Sweep(action) && sweep::answers(
                action,
                event,
            ),
            ReplyView::Removed => request is Remove,
        },
{
}

/// A directory is emptied exactly where it is on the volume it is in, from
/// its listing on; and the way to a target comes with the target's own name.
pub proof fn lemma_sweep_begins(
    platform: Platform,
    path: &PathBuf,
    root: &PathBuf,
    parent: &Volume,
    top: &Volume,
    same: bool,
    begun: Result<Sweep, Fault>,
    way: Result<(Vec<Step>, Vec<u8>), String>,
)
    ensures
        call_ensures(Volume::contains, (parent, platform, top), same) ==> same
            == sweep::same_volume(platform, *parent, *top),
        call_ensures(Sweep::start, (platform, path, parent, top), begun) ==> {
            &&& begun is Ok <==> sweep::same_volume(platform, *parent, *top)
            &&& begun matches Err(fault) ==> fault@ == fault::refused(
                "refusing to remove mounted filesystem "@ + text::shown(path@.text),
            )
            &&& begun matches Ok(sweep) ==> {
                &&& sweep@.platform == platform
                &&& sweep@.top == *top
                &&& sweep@.phase is List
                &&& sweep@.frames.len() == 1
                &&& sweep@.frames[0].path == path@
            }
        },
        call_ensures(descent::open_parent, (platform, path, root), way) ==> (match way {
            Ok((steps, name)) => descent::way_to(platform, path@, root@) == Ok::<
                Seq<StepView>,
                Seq<char>,
            >(steps.deep_view()) && path@.parts.last() == Part::Name(name@),
            Err(reason) => descent::way_to(platform, path@, root@) == Err::<
                Seq<StepView>,
                Seq<char>,
            >(reason@),
        }),
{
}

} // verus!
