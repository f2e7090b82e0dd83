//! What holds of the removal worker.

use vstd::prelude::*;

use crate::judge;
use crate::judge::{Facts, FactsView};
use crate::path::{PathBuf, PathView};
use crate::removal::{Plan, RemovalMode, Target, World, WorldView};
use crate::trash::TrashBackend;
use crate::worker;
use crate::worker::{Attempt, EventView, RemovalEvent, RemovalHandle, Run};

verus! {

/// A planned path is left alone after all exactly where the mounts are not
/// known now, it or something in it is mounted now, or it is not where it
/// seems; it is told the first of these.
pub proof fn lemma_late_exactly(world: WorldView, path: PathView, root: PathView, facts: FactsView)
    ensures
        ({
            let says = worker::late_objection(world, path, root, facts);
            let mounted = judge::mount_refusal(
                world.platform,
                path,
                world.mounts->Ok_0,
                facts.mount_point,
            );
            let link = judge::link_refusal(
                world.platform,
                path,
                root,
                world.real_root,
                world.home,
                facts.real_parent,
            );
            &&& says is None <==> world.mounts is Ok && mounted is None && link is None
            &&& world.mounts matches Err(reason) ==> says == Some(reason)
            &&& world.mounts is Ok && mounted is Some ==> says == mounted
            &&& world.mounts is Ok && mounted is None ==> says == link
        }),
{
}

/// A target is attempted in the way that was asked for exactly where nothing
/// objects to it now, and is refused, for the reason, where something does.
pub proof fn lemma_attempted_as_asked(
    world: &World,
    path: &PathBuf,
    root: &PathBuf,
    facts: &Facts,
    mode: RemovalMode,
    backend: TrashBackend,
    attempt: Attempt,
)
    requires
        call_ensures(worker::attempt, (world, path, root, facts, mode, backend), attempt),
    ensures
        match worker::late_objection(world@, path@, root@, facts@) {
            Some(reason) => attempt matches Attempt::Refuse(text) && text@ == reason,
            None => {
                &&& mode is Permanent ==> attempt is Remove
                &&& mode is Trash ==> attempt == Attempt::Trash(backend)
            },
        },
{
}

/// A removal that deletes uses no trash, and one that trashes the one that
/// was found.
pub proof fn lemma_backend_used(mode: RemovalMode, detected: TrashBackend, used: TrashBackend)
    requires
        call_ensures(worker::backend_for, (mode, detected), used),
    ensures
        mode is Trash ==> used == detected,
        mode is Permanent ==> used is Unavailable,
{
}

/// A plan is empty exactly where it has no targets, whatever it covers or
/// blocks.
pub proof fn lemma_nothing_to_do(plan: &Plan, empty: bool)
    requires
        call_ensures(Plan::is_empty, (plan,), empty),
    ensures
        empty <==> plan.targets@.len() == 0,
{
    assert(plan.targets.deep_view().len() == plan.targets@.len());
}

/// A run starts on the plan's targets and says how many there are; it
/// attempts them in order, unless it is to stop; each attempt counts once,
/// as removed with its bytes or as failed, and is reported by the target's
/// path and size with its outcome; and at the end it reports the tally.
pub proof fn lemma_run_goes_on(
    plan: &Plan,
    started: (Run, RemovalEvent),
    run: &mut Run,
    cancelled: bool,
    next: Option<&Target>,
    outcome: Result<(), String>,
    event: RemovalEvent,
    tally: RemovalEvent,
)
    ensures
        call_ensures(Run::start, (plan,), started) ==> {
            &&& started.0@.targets == plan@.targets
            &&& started.0@.attempted == 0
            &&& started.0@.removed == 0
            &&& started.0@.failed == 0
            &&& started.0@.bytes == 0
            &&& started.1@ == (EventView::Start { total: plan@.targets.len() })
        },
        call_ensures(Run::next, (&*old(run), cancelled), next) ==> {
            &&& next is None <==> cancelled || old(run)@.attempted >= old(run)@.targets.len()
            &&& next matches Some(target) ==> target@ == old(run)@.targets[old(run)@.attempted as int]
        },
        call_ensures(Run::record, (run, outcome), event) ==> {
            let target = old(run)@.targets[old(run)@.attempted as int];
            &&& final(run)@.targets == old(run)@.targets
            &&& final(run)@.attempted == old(run)@.attempted + 1
            &&& outcome is Ok ==> final(run)@.removed == old(run)@.removed + 1 && final(run)@.failed
                == old(run)@.failed && final(run)@.bytes == old(run)@.bytes + target.bytes
            &&& outcome is Err ==> final(run)@.removed == old(run)@.removed && final(run)@.failed
                == old(run)@.failed + 1 && final(run)@.bytes == old(run)@.bytes
            &&& event@ == (EventView::Item {
                path: target.path,
                bytes: target.bytes as nat,
                outcome: worker::outcome_view(outcome),
            })
        },
        call_ensures(Run::finish, (&*old(run),), tally) ==> tally@ == (EventView::Done {
            removed: old(run)@.removed,
            bytes: old(run)@.bytes,
            failed: old(run)@.failed,
        }),
{
}

/// Events come out in the order they arrived, each once; asking a removal to
/// stop takes none of them away, and nothing but that stops it.
pub proof fn lemma_events_handed(
    handle: &mut RemovalHandle,
    event: RemovalEvent,
    taken: Option<RemovalEvent>,
)
    ensures
        call_ensures(RemovalHandle::report, (handle, event), ()) ==> final(handle).waiting() == old(handle).waiting().push(event) && final(handle).stopping() == old(handle).stopping(),
        call_ensures(RemovalHandle::poll, (handle,), taken) ==> {
            &&& final(handle).stopping() == old(handle).stopping()
            &&& taken is None <==> old(handle).waiting().len() == 0
            &&& taken is None ==> final(handle).waiting() == old(handle).waiting()
            &&& taken matches Some(first) ==> old(handle).waiting() == seq![first] + final(handle).waiting()
        },
        call_ensures(RemovalHandle::cancel, (handle,), ()) ==> final(handle).stopping() && final(handle).waiting() == old(handle).waiting(),
{
    if old(handle).waiting().len() > 0 {
        let waiting = old(handle).waiting();
        assert(waiting =~= seq![waiting[0]] + waiting.drop_first());
    }
}

/// What is reported when the worker cannot be started names no path and
/// counts nothing.
pub proof fn lemma_worker_failed(error: &str, event: RemovalEvent)
    requires
        call_ensures(worker::worker_failed, (error,), event),
    ensures
        event@ matches EventView::Item { path, bytes, outcome } && path.parts.len() == 0
            && path.text.len() == 0 && bytes == 0 && (outcome matches Err(reason) && reason
            == "could not start the removal worker: "@ + error@),
{
}

} // verus!
