//! A running removal: what is attempted next, what is reported, and the
//! tally at the end.
//!
//! The worker performs what [`Run`] asks for, one target at a time, and
//! hands back how it went; whoever started it reads the events from a
//! [`RemovalHandle`].

use std::collections::VecDeque;

use vstd::prelude::*;

use crate::judge;
use crate::judge::{Facts, FactsView};
use crate::path::{PathBuf, PathView};
use crate::removal;
use crate::removal::{Plan, RemovalMode, Target, TargetView, World, WorldView};
use crate::trash::TrashBackend;

verus! {

// ---------------------------------------------------------------------
// Events.
// ---------------------------------------------------------------------

/// What a running removal reports.
#[derive(Debug)]
pub enum RemovalEvent {
    Start { total: usize },
    Item { path: PathBuf, bytes: u64, outcome: Result<(), String> },
    Done { removed: u64, bytes: u64, failed: usize },
}

/// How an attempt went.
pub type OutcomeView = Result<(), Seq<char>>;

/// What a [`RemovalEvent`] stands for.
pub enum EventView {
    Start { total: nat },
    Item { path: PathView, bytes: nat, outcome: OutcomeView },
    Done { removed: nat, bytes: nat, failed: nat },
}

/// What an outcome stands for.
pub open spec fn outcome_view(outcome: Result<(), String>) -> OutcomeView {
    match outcome {
        Ok(_) => Ok(()),
        Err(reason) => Err(reason@),
    }
}

impl View for RemovalEvent {
    type V = EventView;

    open spec fn view(&self) -> EventView {
        match *self {
            RemovalEvent::Start { total } => EventView::Start { total: total as nat },
            RemovalEvent::Item { path, bytes, outcome } => EventView::Item {
                path: path@,
                bytes: bytes as nat,
                outcome: outcome_view(outcome),
            },
            RemovalEvent::Done { removed, bytes, failed } => EventView::Done {
                removed: removed as nat,
                bytes: bytes as nat,
                failed: failed as nat,
            },
        }
    }
}

impl Clone for RemovalEvent {
    fn clone(&self) -> (r: Self)
        ensures
            r@ == self@,
    {
        match self {
            RemovalEvent::Start { total } => RemovalEvent::Start { total: *total },
            RemovalEvent::Item { path, bytes, outcome } => RemovalEvent::Item {
                path: path.clone(),
                bytes: *bytes,
                outcome: match outcome {
                    Ok(_) => Ok(()),
                    Err(reason) => Err(reason.clone()),
                },
            },
            RemovalEvent::Done { removed, bytes, failed } => RemovalEvent::Done {
                removed: *removed,
                bytes: *bytes,
                failed: *failed,
            },
        }
    }
}

/// The events of a removal running elsewhere, as they arrive, and the wish
/// to stop it.
#[derive(Debug)]
pub struct RemovalHandle {
    events: VecDeque<RemovalEvent>,
    cancelled: bool,
}

impl RemovalHandle {
    /// The events that have arrived and were not taken, oldest first.
    pub closed spec fn waiting(&self) -> Seq<RemovalEvent> {
        self.events@
    }

    /// Whether the removal was asked to stop.
    pub closed spec fn stopping(&self) -> bool {
        self.cancelled
    }

    /// A removal that has reported nothing.
    pub fn new() -> (r: RemovalHandle)
        ensures
            r.waiting() == Seq::<RemovalEvent>::empty(),
            !r.stopping(),
    {
        RemovalHandle { events: VecDeque::new(), cancelled: false }
    }

    /// An event arrives.
    pub fn report(&mut self, event: RemovalEvent)
        ensures
            final(self).waiting() == old(self).waiting().push(event),
            final(self).stopping() == old(self).stopping(),
    {
        self.events.push_back(event);
    }

    /// Take the next event, if one has arrived.
    pub fn poll(&mut self) -> (r: Option<RemovalEvent>)
        ensures
            final(self).stopping() == old(self).stopping(),
            match r {
                Some(event) => old(self).waiting().len() > 0 && event == old(self).waiting()[0]
                    && final(self).waiting() == old(self).waiting().drop_first(),
                None => old(self).waiting().len() == 0 && final(self).waiting() == old(
                    self,
                ).waiting(),
            },
    {
        let event = self.events.pop_front();
        assert(event is Some ==> self.events@ =~= old(self).events@.drop_first());
        event
    }

    /// Stop before the next target starts.
    pub fn cancel(&mut self)
        ensures
            final(self).stopping(),
            final(self).waiting() == old(self).waiting(),
    {
        self.cancelled = true;
    }

    /// Whether the removal was asked to stop.
    pub fn is_cancelled(&self) -> (r: bool)
        ensures
            r == self.stopping(),
    {
        self.cancelled
    }
}

/// Events come out in the order they arrived: what arrives later is taken
/// after all that waits.
pub proof fn lemma_events_in_order(waiting: Seq<RemovalEvent>, event: RemovalEvent)
    ensures
        waiting.len() > 0 ==> waiting.push(event)[0] == waiting[0] && waiting.push(
            event,
        ).drop_first() == waiting.drop_first().push(event),
        waiting.len() == 0 ==> waiting.push(event)[0] == event && waiting.push(event).drop_first()
            == waiting,
{
    if waiting.len() > 0 {
        assert(waiting.push(event).drop_first() =~= waiting.drop_first().push(event));
    } else {
        assert(waiting.push(event).drop_first() =~= waiting);
    }
}

// ---------------------------------------------------------------------
// Starting.
// ---------------------------------------------------------------------

/// The trash backend a removal uses: the one detected, where it uses any.
pub fn backend_for(mode: RemovalMode, detected: TrashBackend) -> (r: TrashBackend)
    ensures
        r == match mode {
            RemovalMode::Trash => detected,
            RemovalMode::Permanent => TrashBackend::Unavailable,
        },
{
    match mode {
        RemovalMode::Trash => detected,
        RemovalMode::Permanent => TrashBackend::Unavailable,
    }
}

/// What is reported when the worker cannot be started.
pub fn worker_failed(error: &str) -> (r: RemovalEvent)
    ensures
        r matches RemovalEvent::Item { path, bytes, outcome } && path@.text == Seq::<u8>::empty()
            && path@.parts.len() == 0 && bytes == 0 && outcome_view(outcome) == Err::<
            (),
            Seq<char>,
        >("could not start the removal worker: "@ + error@),
{
    let mut reason = "could not start the removal worker: ".to_owned();
    reason.append(error);
    RemovalEvent::Item {
        path: PathBuf { text: Vec::new(), parts: Vec::new() },
        bytes: 0,
        outcome: Err(reason),
    }
}

// ---------------------------------------------------------------------
// Judging again.
// ---------------------------------------------------------------------

/// Why a planned path is not touched after all, if it is not, by what is
/// known of the machine now.
pub open spec fn late_objection(
    world: WorldView,
    path: PathView,
    root: PathView,
    facts: FactsView,
) -> Option<Seq<char>> {
    match world.mounts {
        Err(reason) => Some(reason),
        Ok(mounts) => match judge::mount_refusal(
            world.platform,
            path,
            mounts,
            facts.mount_point,
        ) {
            Some(reason) => Some(reason),
            None => judge::link_refusal(
                world.platform,
                path,
                root,
                world.real_root,
                world.home,
                facts.real_parent,
            ),
        },
    }
}

/// Why a planned path is not touched after all, if it is not. Planning may
/// use a recent cached mount table; this goes by one read fresh before any
/// target is touched. Links too: one put on the way down since the plan was
/// made would lead the trash out of the root.
pub fn recheck(world: &World, path: &PathBuf, root: &PathBuf, facts: &Facts) -> (r: Option<String>)
    ensures
        judge::said(r) == late_objection(world@, path@, root@, facts@),
{
    let mounts = match &world.mounts {
        Err(reason) => {
            return Some(reason.clone());
        },
        Ok(mounts) => mounts,
    };
    if let Some(reason) = judge::mounted(
        world.platform,
        path,
        mounts.as_slice(),
        facts.mount_point,
    ) {
        return Some(reason);
    }
    judge::linked(
        world.platform,
        path,
        root,
        world.real_root.as_ref(),
        world.home.as_ref(),
        facts.real_parent.as_ref(),
    )
}

/// What to do about one target.
#[derive(Debug)]
pub enum Attempt {
    /// Nothing: it failed, for this reason.
    Refuse(String),
    /// Delete it.
    Remove,
    /// Move it to the trash.
    Trash(TrashBackend),
}

/// What to do about one target in a removal by `mode`.
pub fn attempt(
    world: &World,
    path: &PathBuf,
    root: &PathBuf,
    facts: &Facts,
    mode: RemovalMode,
    backend: TrashBackend,
) -> (r: Attempt)
    ensures
        match late_objection(world@, path@, root@, facts@) {
            Some(reason) => r matches Attempt::Refuse(text) && text@ == reason,
            None => r == match mode {
                RemovalMode::Permanent => Attempt::Remove,
                RemovalMode::Trash => Attempt::Trash(backend),
            },
        },
{
    match recheck(world, path, root, facts) {
        Some(reason) => Attempt::Refuse(reason),
        None => match mode {
            RemovalMode::Permanent => Attempt::Remove,
            RemovalMode::Trash => Attempt::Trash(backend),
        },
    }
}

// ---------------------------------------------------------------------
// The run.
// ---------------------------------------------------------------------

/// A removal in progress: how many targets were attempted, and the tally.
#[derive(Debug)]
pub struct Run {
    targets: Vec<Target>,
    attempted: usize,
    removed: u64,
    bytes: u64,
    failed: usize,
}

/// What a [`Run`] stands for.
pub struct RunView {
    pub targets: Seq<TargetView>,
    pub attempted: nat,
    pub removed: nat,
    pub bytes: nat,
    pub failed: nat,
}

impl View for Run {
    type V = RunView;

    closed spec fn view(&self) -> RunView {
        RunView {
            targets: self.targets.deep_view(),
            attempted: self.attempted as nat,
            removed: self.removed as nat,
            bytes: self.bytes as nat,
            failed: self.failed as nat,
        }
    }
}

impl RunView {
    /// Every attempt was counted once.
    pub open spec fn wf(self) -> bool {
        &&& self.attempted <= self.targets.len()
        &&& self.removed + self.failed == self.attempted
    }
}

/// The start of a run over `targets`.
pub open spec fn run_start(targets: Seq<TargetView>) -> RunView {
    RunView { targets, attempted: 0, removed: 0, bytes: 0, failed: 0 }
}

/// A run after the next target's attempt went as `outcome` says.
pub open spec fn run_step(run: RunView, outcome: OutcomeView) -> RunView {
    if outcome is Ok {
        RunView {
            attempted: run.attempted + 1,
            removed: run.removed + 1,
            bytes: run.bytes + run.targets[run.attempted as int].bytes as nat,
            ..run
        }
    } else {
        RunView { attempted: run.attempted + 1, failed: run.failed + 1, ..run }
    }
}

/// What is reported of the next target's attempt.
pub open spec fn item_event(run: RunView, outcome: OutcomeView) -> EventView {
    let target = run.targets[run.attempted as int];
    EventView::Item { path: target.path, bytes: target.bytes as nat, outcome }
}

/// The target a run attempts next: none once all were, or when it is asked
/// to stop.
pub open spec fn next_of(run: RunView, cancelled: bool) -> Option<TargetView> {
    if cancelled || run.attempted >= run.targets.len() {
        None
    } else {
        Some(run.targets[run.attempted as int])
    }
}

/// The tally that ends a run.
pub open spec fn done_event(run: RunView) -> EventView {
    EventView::Done { removed: run.removed, bytes: run.bytes, failed: run.failed }
}

impl Run {
    /// Start on the plan's targets.
    pub fn start(plan: &Plan) -> (r: (Run, RemovalEvent))
        ensures
            r.0@ == run_start(plan@.targets),
            r.0@.wf(),
            r.1@ == (EventView::Start { total: plan@.targets.len() }),
    {
        let targets = removal::copy_targets(plan.targets.as_slice());
        assert(plan.targets.deep_view().len() == plan.targets.len());
        let total: usize = plan.targets.len();
        (
            Run { targets, attempted: 0, removed: 0, bytes: 0, failed: 0 },
            RemovalEvent::Start { total },
        )
    }

    /// The target to attempt next: none once all were, or the removal was
    /// asked to stop.
    pub fn next(&self, cancelled: bool) -> (r: Option<&Target>)
        ensures
            match r {
                Some(target) => next_of(self@, cancelled) == Some(target@),
                None => next_of(self@, cancelled) is None,
            },
    {
        assert(self.targets.deep_view().len() == self.targets.len());
        if cancelled || self.attempted >= self.targets.len() {
            None
        } else {
            Some(&self.targets[self.attempted])
        }
    }

    /// Count how the next target's attempt went, and report it.
    pub fn record(&mut self, outcome: Result<(), String>) -> (r: RemovalEvent)
        requires
            old(self)@.wf(),
            old(self)@.attempted < old(self)@.targets.len(),
            outcome is Ok ==> old(self)@.bytes + old(self)@.targets[old(
                self,
            )@.attempted as int].bytes <= u64::MAX,
        ensures
            final(self)@ == run_step(old(self)@, outcome_view(outcome)),
            final(self)@.wf(),
            r@ == item_event(old(self)@, outcome_view(outcome)),
    {
        assert(self.targets.deep_view().len() == self.targets.len());
        let target = &self.targets[self.attempted];
        let path = target.path.clone();
        let bytes: u64 = target.bytes;
        if outcome.is_ok() {
            self.removed = self.removed + 1;
            self.bytes = self.bytes + bytes;
        } else {
            self.failed = self.failed + 1;
        }
        self.attempted = self.attempted + 1;
        RemovalEvent::Item { path, bytes, outcome }
    }

    /// Report the tally.
    pub fn finish(&self) -> (r: RemovalEvent)
        ensures
            r@ == done_event(self@),
    {
        RemovalEvent::Done { removed: self.removed, bytes: self.bytes, failed: self.failed }
    }
}

// ---------------------------------------------------------------------
// What holds of every run.
// ---------------------------------------------------------------------

/// A run over `targets` whose first attempts went as `outcomes` say.
pub open spec fn run_after(targets: Seq<TargetView>, outcomes: Seq<OutcomeView>) -> RunView
    decreases outcomes.len(),
{
    if outcomes.len() == 0 {
        run_start(targets)
    } else {
        run_step(run_after(targets, outcomes.drop_last()), outcomes.last())
    }
}

/// The outcomes that were successes, counted.
pub open spec fn successes(outcomes: Seq<OutcomeView>) -> nat
    decreases outcomes.len(),
{
    if outcomes.len() == 0 {
        0
    } else {
        successes(outcomes.drop_last()) + if outcomes.last() is Ok {
            1nat
        } else {
            0nat
        }
    }
}

/// The bytes of the targets whose attempt succeeded.
pub open spec fn freed(targets: Seq<TargetView>, outcomes: Seq<OutcomeView>) -> nat
    decreases outcomes.len(),
{
    if outcomes.len() == 0 {
        0
    } else {
        freed(targets, outcomes.drop_last()) + if outcomes.last() is Ok {
            targets[outcomes.len() - 1].bytes as nat
        } else {
            0nat
        }
    }
}

/// The tally at the end is that of the outcomes, whatever they were: the
/// successes, their bytes, and the failures, every attempt counted once.
pub proof fn lemma_run_tally(targets: Seq<TargetView>, outcomes: Seq<OutcomeView>)
    ensures
        ({
            let run = run_after(targets, outcomes);
            &&& run.targets == targets
            &&& run.attempted == outcomes.len()
            &&& run.removed == successes(outcomes)
            &&& run.failed == outcomes.len() - successes(outcomes)
            &&& run.bytes == freed(targets, outcomes)
        }),
    decreases outcomes.len(),
{
    if outcomes.len() > 0 {
        lemma_run_tally(targets, outcomes.drop_last());
    }
}

/// No more is tallied as freed than the targets held when they were marked.
pub proof fn lemma_freed_bounded(targets: Seq<TargetView>, outcomes: Seq<OutcomeView>)
    requires
        outcomes.len() <= targets.len(),
    ensures
        freed(targets, outcomes) <= removal::total_bytes(targets.take(outcomes.len() as int)),
        freed(targets, outcomes) <= removal::total_bytes(targets),
    decreases outcomes.len(),
{
    if outcomes.len() > 0 {
        lemma_freed_bounded(targets, outcomes.drop_last());
        let n = outcomes.len() as int;
        assert(targets.take(n).drop_last() =~= targets.take(n - 1));
        assert(targets.take(n).last() == targets[n - 1]);
    }
    removal::lemma_total_bytes_take(targets, outcomes.len() as int);
}

/// The events of a whole run: its start, one item per attempt in order, and
/// the tally.
pub open spec fn events_of(targets: Seq<TargetView>, outcomes: Seq<OutcomeView>) -> Seq<EventView> {
    seq![EventView::Start { total: targets.len() }] + Seq::new(
        outcomes.len(),
        |i: int| item_event(run_after(targets, outcomes.take(i)), outcomes[i]),
    ) + seq![done_event(run_after(targets, outcomes))]
}

/// A run reports every target it attempted, in the order of the plan, by
/// its path and size and with its outcome.
pub proof fn lemma_run_reports(targets: Seq<TargetView>, outcomes: Seq<OutcomeView>)
    ensures
        events_of(targets, outcomes).len() == outcomes.len() + 2,
        forall|i: int|
            0 <= i < outcomes.len() ==> #[trigger] events_of(targets, outcomes)[i + 1] == (
            EventView::Item {
                path: targets[i].path,
                bytes: targets[i].bytes as nat,
                outcome: outcomes[i],
            }),
{
    assert forall|i: int| 0 <= i < outcomes.len() implies #[trigger] events_of(
        targets,
        outcomes,
    )[i + 1] == (EventView::Item {
        path: targets[i].path,
        bytes: targets[i].bytes as nat,
        outcome: outcomes[i],
    }) by {
        lemma_run_tally(targets, outcomes.take(i));
    }
}

/// What a run reports from where it is to its end, when `stopping` says, by
/// how many targets were attempted, whether it is asked to stop before the
/// next, and `outcomes` how each attempt goes: as long as there is a next
/// target it is attempted and recorded, and then the run finishes.
pub open spec fn events_from(
    run: RunView,
    stopping: spec_fn(nat) -> bool,
    outcomes: spec_fn(nat) -> OutcomeView,
) -> Seq<EventView>
    decreases run.targets.len() - run.attempted,
{
    match next_of(run, stopping(run.attempted)) {
        None => seq![done_event(run)],
        Some(_) => {
            let outcome = outcomes(run.attempted);
            seq![item_event(run, outcome)] + events_from(
                run_step(run, outcome),
                stopping,
                outcomes,
            )
        },
    }
}

/// What a run over `targets` reports from its start to its end.
pub open spec fn reported(
    targets: Seq<TargetView>,
    stopping: spec_fn(nat) -> bool,
    outcomes: spec_fn(nat) -> OutcomeView,
) -> Seq<EventView> {
    seq![EventView::Start { total: targets.len() }] + events_from(
        run_start(targets),
        stopping,
        outcomes,
    )
}

/// How the first `n` attempts go.
pub open spec fn first_outcomes(outcomes: spec_fn(nat) -> OutcomeView, n: nat) -> Seq<OutcomeView> {
    Seq::new(n, |i: int| outcomes(i as nat))
}

/// A run that is asked to stop attempts a prefix of its targets, all up to
/// the request and none after it, reports each of them in order with its
/// outcome, and ends with one tally, in which each of them counts once. One
/// that is never asked to stop attempts them all.
pub proof fn lemma_run_stops(
    targets: Seq<TargetView>,
    stopping: spec_fn(nat) -> bool,
    outcomes: spec_fn(nat) -> OutcomeView,
) -> (n: nat)
    ensures
        n <= targets.len(),
        forall|k: nat| k < n ==> !(#[trigger] stopping(k)),
        n < targets.len() ==> stopping(n),
        ({
            let events = reported(targets, stopping, outcomes);
            let went = first_outcomes(outcomes, n);
            &&& events == events_of(targets, went)
            &&& events.len() == n + 2
            &&& events[0] == (EventView::Start { total: targets.len() })
            &&& forall|i: int|
                0 <= i < n ==> #[trigger] events[i + 1] == (EventView::Item {
                    path: targets[i].path,
                    bytes: targets[i].bytes as nat,
                    outcome: outcomes(i as nat),
                })
            &&& events[n as int + 1] == (EventView::Done {
                removed: successes(went),
                bytes: freed(targets, went),
                failed: (n - successes(went)) as nat,
            })
            &&& successes(went) <= n
        }),
{
    let none = first_outcomes(outcomes, 0);
    assert(run_after(targets, none) == run_start(targets));
    let n = lemma_events_from(targets, stopping, outcomes, 0);
    let went = first_outcomes(outcomes, n);
    let events = reported(targets, stopping, outcomes);
    lemma_run_reports(targets, went);
    lemma_run_tally(targets, went);
    lemma_successes(went);
    let whole = events_of(targets, went);
    assert(events.len() == whole.len());
    assert forall|i: int| 0 <= i < events.len() implies events[i] == whole[i] by {
        if 0 < i <= n {
            let k = i - 1;
            assert(events[i] == events_from(run_start(targets), stopping, outcomes)[k]);
            assert(whole[k + 1] == (EventView::Item {
                path: targets[k].path,
                bytes: targets[k].bytes as nat,
                outcome: went[k],
            }));
        }
    }
    assert(events =~= whole);
    n
}

proof fn lemma_successes(outcomes: Seq<OutcomeView>)
    ensures
        successes(outcomes) <= outcomes.len(),
    decreases outcomes.len(),
{
    if outcomes.len() > 0 {
        lemma_successes(outcomes.drop_last());
    }
}

/// What is reported once `k` targets were attempted.
proof fn lemma_events_from(
    targets: Seq<TargetView>,
    stopping: spec_fn(nat) -> bool,
    outcomes: spec_fn(nat) -> OutcomeView,
    k: nat,
) -> (n: nat)
    requires
        k <= targets.len(),
        forall|j: nat| j < k ==> !(#[trigger] stopping(j)),
    ensures
        k <= n <= targets.len(),
        forall|j: nat| j < n ==> !(#[trigger] stopping(j)),
        n < targets.len() ==> stopping(n),
        ({
            let run = run_after(targets, first_outcomes(outcomes, k));
            let events = events_from(run, stopping, outcomes);
            &&& events.len() == n - k + 1
            &&& forall|i: int|
                0 <= i < n - k ==> #[trigger] events[i] == (EventView::Item {
                    path: targets[k + i].path,
                    bytes: targets[k + i].bytes as nat,
                    outcome: outcomes((k + i) as nat),
                })
            &&& events[n - k] == done_event(run_after(targets, first_outcomes(outcomes, n)))
        }),
    decreases targets.len() - k,
{
    let went = first_outcomes(outcomes, k);
    let run = run_after(targets, went);
    lemma_run_tally(targets, went);
    if next_of(run, stopping(k)) is None {
        k
    } else {
        let more = first_outcomes(outcomes, k + 1);
        assert(more.drop_last() =~= went);
        assert(more.last() == outcomes(k));
        assert(run_after(targets, more) == run_step(run, outcomes(k)));
        let n = lemma_events_from(targets, stopping, outcomes, k + 1);
        let events = events_from(run, stopping, outcomes);
        let rest = events_from(run_after(targets, more), stopping, outcomes);
        assert(events == seq![item_event(run, outcomes(k))] + rest);
        assert forall|i: int| 0 <= i < n - k implies #[trigger] events[i] == (EventView::Item {
            path: targets[k + i].path,
            bytes: targets[k + i].bytes as nat,
            outcome: outcomes((k + i) as nat),
        }) by {
            if i > 0 {
                assert(events[i] == rest[i - 1]);
            }
        }
        assert(events[n - k] == rest[n - k - 1]);
        n
    }
}

/// Without a mount table the worker touches nothing: every attempt is
/// refused.
pub proof fn lemma_no_mounts_no_attempt(
    world: WorldView,
    path: PathView,
    root: PathView,
    facts: FactsView,
)
    requires
        world.mounts is Err,
    ensures
        late_objection(world, path, root, facts) is Some,
{
}

} // verus!
