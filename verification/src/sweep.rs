//! Emptying a directory for good, `rm -rf --one-file-system` style: a link
//! is unlinked, never followed, and nothing on another filesystem is
//! touched.
//!
//! [`Sweep`] decides; the worker keeps the open directories and does what it
//! is told, one operation at a time: it lists a directory before anything in
//! it is removed (unlinking while a directory is being read may skip
//! entries), opens every directory relative to its parent without following
//! a link, and hands back what happened.

use vstd::prelude::*;

use crate::fault;
use crate::fault::{Fault, FaultView};
use crate::path;
use crate::path::{Part, PathBuf, PathView};
use crate::platform::Platform;
use crate::text;

verus! {

// ---------------------------------------------------------------------
// Volumes.
// ---------------------------------------------------------------------

/// Where a directory lives, as far as crossing into another filesystem goes.
#[derive(Clone, Copy, Debug, PartialEq, Eq, Structural)]
pub struct Volume {
    pub device: u64,
    /// The mount the directory belongs to, where the kernel reports it.
    pub mount: Option<u64>,
}

/// Both are on the same mount. Where the kernel names mounts, that decides;
/// where it should and does not, nothing is the same; elsewhere the device
/// decides.
pub open spec fn same_volume(platform: Platform, one: Volume, two: Volume) -> bool {
    match (one.mount, two.mount) {
        (Some(a), Some(b)) => a == b,
        _ => !(platform is Linux) && one.device == two.device,
    }
}

impl Volume {
    /// Whether `other` is on the same mount. A btrfs subvolume that is not
    /// mounted has its own device but is the same mount, and the scan showed
    /// it as part of the volume, so it goes with the directory it is in; a
    /// bind mount keeps its device but is a mount of its own, and stops the
    /// removal. Without mount ids (macOS) the device decides.
    pub fn contains(&self, platform: Platform, other: &Volume) -> (r: bool)
        ensures
            r == same_volume(platform, *self, *other),
    {
        match (self.mount, other.mount) {
            (Some(one), Some(two)) => one == two,
            _ => match platform {
                Platform::Linux => false,
                _ => self.device == other.device,
            },
        }
    }
}

// ---------------------------------------------------------------------
// Entries, frames and phases.
// ---------------------------------------------------------------------

/// What a listing says an entry is.
#[derive(Clone, Copy, Debug, PartialEq, Eq, Structural)]
pub enum EntryKind {
    Directory,
    /// The filesystem does not say.
    Unknown,
    Other,
}

/// One entry of a listed directory.
#[derive(Debug)]
pub struct Entry {
    pub name: Vec<u8>,
    pub kind: EntryKind,
}

/// What an [`Entry`] stands for.
pub struct EntryView {
    pub name: Seq<u8>,
    pub kind: EntryKind,
}

impl View for Entry {
    type V = EntryView;

    open spec fn view(&self) -> EntryView {
        EntryView { name: self.name@, kind: self.kind }
    }
}

impl DeepView for Entry {
    type V = EntryView;

    open spec fn deep_view(&self) -> EntryView {
        self@
    }
}

/// A directory being emptied: its path, what it holds, and how much of that
/// is gone.
#[derive(Debug)]
pub struct Frame {
    pub path: PathBuf,
    pub entries: Vec<Entry>,
    pub next: usize,
}

/// What a [`Frame`] stands for.
pub struct FrameView {
    pub path: PathView,
    pub entries: Seq<EntryView>,
    pub next: nat,
}

impl View for Frame {
    type V = FrameView;

    open spec fn view(&self) -> FrameView {
        FrameView {
            path: self.path@,
            entries: self.entries.deep_view(),
            next: self.next as nat,
        }
    }
}

impl DeepView for Frame {
    type V = FrameView;

    open spec fn deep_view(&self) -> FrameView {
        self@
    }
}

/// What a sweep is about to do in its innermost directory.
#[derive(Debug)]
pub enum Phase {
    /// List it.
    List,
    /// Go on with its next entry, or leave it.
    Work,
    /// Unlink its next entry, which turned out to be no directory.
    Unlink,
    /// Everything is gone.
    Done,
    /// Something was in the way.
    Stopped(Fault),
}

/// What a [`Phase`] stands for.
pub enum PhaseView {
    List,
    Work,
    Unlink,
    Done,
    Stopped(FaultView),
}

impl View for Phase {
    type V = PhaseView;

    open spec fn view(&self) -> PhaseView {
        match *self {
            Phase::List => PhaseView::List,
            Phase::Work => PhaseView::Work,
            Phase::Unlink => PhaseView::Unlink,
            Phase::Done => PhaseView::Done,
            Phase::Stopped(fault) => PhaseView::Stopped(fault@),
        }
    }
}

/// What the worker is told to do, in the innermost open directory.
#[derive(Debug)]
pub enum Action {
    /// List it.
    List,
    /// Open this directory in it, not following a link.
    Open(Vec<u8>),
    /// Unlink this entry of it.
    Unlink(Vec<u8>),
    /// Close it, and remove it, by this name, from the directory it is in.
    RemoveDirectory(Vec<u8>),
    /// Nothing: it is empty.
    Done,
    /// Nothing more, for this reason.
    Stopped(Fault),
}

/// What an [`Action`] stands for.
pub enum ActionView {
    List,
    Open(Seq<u8>),
    Unlink(Seq<u8>),
    RemoveDirectory(Seq<u8>),
    Done,
    Stopped(FaultView),
}

impl View for Action {
    type V = ActionView;

    open spec fn view(&self) -> ActionView {
        match *self {
            Action::List => ActionView::List,
            Action::Open(name) => ActionView::Open(name@),
            Action::Unlink(name) => ActionView::Unlink(name@),
            Action::RemoveDirectory(name) => ActionView::RemoveDirectory(name@),
            Action::Done => ActionView::Done,
            Action::Stopped(fault) => ActionView::Stopped(fault@),
        }
    }
}

/// What happened when the worker did as it was told.
#[derive(Debug)]
pub enum Event {
    /// The directory holds these.
    Listed(Vec<Entry>),
    /// The directory was opened, and lives here.
    Opened(Volume),
    /// It is no directory after all: a link, or a file on a filesystem that
    /// does not report kinds.
    NotDirectory,
    /// The entry or directory was removed.
    Removed,
    /// It failed, for this reason.
    Failed(Fault),
}

/// What an [`Event`] stands for.
pub enum EventView {
    Listed(Seq<EntryView>),
    Opened(Volume),
    NotDirectory,
    Removed,
    Failed(FaultView),
}

impl View for Event {
    type V = EventView;

    open spec fn view(&self) -> EventView {
        match *self {
            Event::Listed(entries) => EventView::Listed(entries.deep_view()),
            Event::Opened(volume) => EventView::Opened(volume),
            Event::NotDirectory => EventView::NotDirectory,
            Event::Removed => EventView::Removed,
            Event::Failed(fault) => EventView::Failed(fault@),
        }
    }
}

// ---------------------------------------------------------------------
// The sweep.
// ---------------------------------------------------------------------

/// A directory being emptied, with all it holds.
#[derive(Debug)]
pub struct Sweep {
    pub platform: Platform,
    /// Where the directory lives; nothing elsewhere is entered.
    pub top: Volume,
    /// The directories that are open, outermost first.
    pub frames: Vec<Frame>,
    pub phase: Phase,
}

/// What a [`Sweep`] stands for.
pub struct SweepView {
    pub platform: Platform,
    pub top: Volume,
    pub frames: Seq<FrameView>,
    pub phase: PhaseView,
}

impl View for Sweep {
    type V = SweepView;

    open spec fn view(&self) -> SweepView {
        SweepView {
            platform: self.platform,
            top: self.top,
            frames: self.frames.deep_view(),
            phase: self.phase@,
        }
    }
}

impl SweepView {
    /// A directory is open; every open directory but the innermost has the
    /// next one as its next entry; and an entry to unlink is there.
    pub open spec fn framed(self) -> bool {
        &&& self.frames.len() > 0
        &&& forall|i: int|
            0 <= i < self.frames.len() - 1 ==> (#[trigger] self.frames[i]).next
                < self.frames[i].entries.len()
        &&& self.frames.last().next <= self.frames.last().entries.len()
        &&& self.phase is Unlink ==> self.frames.last().next < self.frames.last().entries.len()
    }

    /// There is something to do, unless the sweep is over.
    pub open spec fn wf(self) -> bool {
        &&& self.framed()
        &&& self.phase is Work && self.frames.len() == 1 ==> self.frames[0].next
            < self.frames[0].entries.len()
    }
}

/// What a sweep does next.
pub open spec fn next_action(sweep: SweepView) -> ActionView {
    let here = sweep.frames.last();
    match sweep.phase {
        PhaseView::List => ActionView::List,
        PhaseView::Unlink => ActionView::Unlink(here.entries[here.next as int].name),
        PhaseView::Done => ActionView::Done,
        PhaseView::Stopped(fault) => ActionView::Stopped(fault),
        PhaseView::Work => if here.next < here.entries.len() {
            let entry = here.entries[here.next as int];
            if entry.kind is Other {
                ActionView::Unlink(entry.name)
            } else {
                ActionView::Open(entry.name)
            }
        } else {
            let outer = sweep.frames[sweep.frames.len() - 2];
            ActionView::RemoveDirectory(outer.entries[outer.next as int].name)
        },
    }
}

/// Whether `event` is what can come of doing `action`.
pub open spec fn answers(action: ActionView, event: EventView) -> bool {
    match action {
        ActionView::List => event is Listed || event is Failed,
        ActionView::Open(_) => event is Opened || event is NotDirectory || event is Failed,
        ActionView::Unlink(_) | ActionView::RemoveDirectory(_) => event is Removed
            || event is Failed,
        ActionView::Done | ActionView::Stopped(_) => false,
    }
}

/// The entries of a directory, without itself and its parent.
pub open spec fn without_dots(entries: Seq<EntryView>) -> Seq<EntryView>
    decreases entries.len(),
{
    if entries.len() == 0 {
        seq![]
    } else {
        let front = without_dots(entries.drop_last());
        let name = entries.last().name;
        if name == seq![46u8] || name == seq![46u8, 46u8] {
            front
        } else {
            front.push(entries.last())
        }
    }
}

/// A frame with one more entry gone.
pub open spec fn advanced(frame: FrameView) -> FrameView {
    FrameView { next: frame.next + 1, ..frame }
}

/// A sweep ready to go on in its innermost directory, or done, where
/// nothing is left in the outermost.
pub open spec fn onward(sweep: SweepView) -> SweepView {
    let here = sweep.frames.last();
    if sweep.frames.len() == 1 && here.next >= here.entries.len() {
        SweepView { phase: PhaseView::Done, ..sweep }
    } else {
        SweepView { phase: PhaseView::Work, ..sweep }
    }
}

/// A sweep that stops.
pub open spec fn halted(sweep: SweepView, fault: FaultView) -> SweepView {
    SweepView { phase: PhaseView::Stopped(fault), ..sweep }
}

/// The path of the innermost directory's next entry.
pub open spec fn entry_path(sweep: SweepView) -> PathView {
    let here = sweep.frames.last();
    path::joined(
        sweep.platform,
        here.path,
        seq![Part::Name(here.entries[here.next as int].name)],
    )
}

/// What is said where another filesystem begins.
pub open spec fn foreign(path: PathView) -> Seq<char> {
    "stopped at "@ + text::shown(path.text)
        + ": another filesystem is mounted there, and nothing on it was touched"@
}

/// What is said where another filesystem is mounted on the directory itself.
pub open spec fn mounted_there(path: PathView) -> Seq<char> {
    "refusing to remove mounted filesystem "@ + text::shown(path.text)
}

/// A sweep after what it told the worker to do came to `event`.
pub open spec fn sweep_step(sweep: SweepView, event: EventView) -> SweepView {
    let here = sweep.frames.last();
    let outer = sweep.frames.drop_last();
    match event {
        EventView::Failed(fault) => halted(sweep, fault),
        EventView::Listed(entries) => onward(
            SweepView {
                frames: outer.push(FrameView { entries: without_dots(entries), next: 0, ..here }),
                ..sweep
            },
        ),
        EventView::NotDirectory => SweepView { phase: PhaseView::Unlink, ..sweep },
        EventView::Opened(volume) => if same_volume(sweep.platform, sweep.top, volume) {
            SweepView {
                frames: sweep.frames.push(
                    FrameView { path: entry_path(sweep), entries: seq![], next: 0 },
                ),
                phase: PhaseView::List,
                ..sweep
            }
        } else {
            halted(sweep, fault::refused(foreign(entry_path(sweep))))
        },
        EventView::Removed => if next_action(sweep) is RemoveDirectory {
            onward(
                SweepView { frames: outer.drop_last().push(advanced(outer.last())), ..sweep },
            )
        } else {
            onward(SweepView { frames: outer.push(advanced(here)), ..sweep })
        },
    }
}

/// A sweep of the directory at `path`, open and living at `top`.
pub open spec fn sweep_start(platform: Platform, path: PathView, top: Volume) -> SweepView {
    SweepView {
        platform,
        top,
        frames: seq![FrameView { path, entries: seq![], next: 0 }],
        phase: PhaseView::List,
    }
}

/// Whether `name` is a directory's own name for itself or its parent.
fn is_dots(name: &Vec<u8>) -> (r: bool)
    ensures
        r == (name@ == seq![46u8] || name@ == seq![46u8, 46u8]),
{
    let one: Vec<u8> = vec![46];
    let two: Vec<u8> = vec![46, 46];
    assert(one@ =~= seq![46u8]);
    assert(two@ =~= seq![46u8, 46u8]);
    text::same_units(name.as_slice(), one.as_slice()) || text::same_units(
        name.as_slice(),
        two.as_slice(),
    )
}

/// The entries of a directory, without itself and its parent.
fn drop_dots(entries: &Vec<Entry>) -> (r: Vec<Entry>)
    ensures
        r.deep_view() == without_dots(entries.deep_view()),
{
    let ghost all = entries.deep_view();
    let mut out: Vec<Entry> = Vec::new();
    let mut i: usize = 0;
    assert(all.take(0) =~= Seq::<EntryView>::empty());
    assert(out.deep_view() =~= without_dots(all.take(0)));
    while i < entries.len()
        invariant
            i <= entries@.len(),
            all == entries.deep_view(),
            out.deep_view() == without_dots(all.take(i as int)),
        decreases entries@.len() - i,
    {
        let ghost before = out.deep_view();
        proof {
            assert(all.take(i + 1).drop_last() =~= all.take(i as int));
            assert(all.take(i + 1).last() == entries@[i as int]@);
        }
        if !is_dots(&entries[i].name) {
            out.push(Entry { name: path::copy_bytes(&entries[i].name), kind: entries[i].kind });
            assert(out.deep_view() =~= before.push(all[i as int]));
        }
        i += 1;
    }
    assert(all.take(all.len() as int) =~= all);
    out
}

impl Sweep {
    /// Start emptying the directory at `path`, which is open, lives at `top`
    /// and is in a directory that lives at `parent`: not where another
    /// filesystem is mounted on it.
    pub fn start(platform: Platform, path: &PathBuf, parent: &Volume, top: &Volume) -> (r: Result<
        Sweep,
        Fault,
    >)
        ensures
            match r {
                Ok(sweep) => same_volume(platform, *parent, *top) && sweep@ == sweep_start(
                    platform,
                    path@,
                    *top,
                ) && sweep@.wf(),
                Err(fault) => !same_volume(platform, *parent, *top) && fault@ == fault::refused(
                    mounted_there(path@),
                ),
            },
    {
        if !parent.contains(platform, top) {
            let mut reason = "refusing to remove mounted filesystem ".to_owned();
            reason.append(path.display(Platform::Linux).as_str());
            return Err(Fault::refusal(reason));
        }
        let mut frames: Vec<Frame> = Vec::new();
        let entries: Vec<Entry> = Vec::new();
        assert(entries.deep_view() =~= Seq::<EntryView>::empty());
        frames.push(Frame { path: path.clone(), entries, next: 0 });
        let sweep = Sweep { platform, top: *top, frames, phase: Phase::List };
        assert(sweep@.frames =~= sweep_start(platform, path@, *top).frames);
        Ok(sweep)
    }

    /// What to do next.
    pub fn action(&self) -> (r: Action)
        requires
            self@.wf(),
        ensures
            r@ == next_action(self@),
    {
        let n: usize = self.frames.len();
        let here = &self.frames[n - 1];
        assert(self@.frames.last() == here@);
        match &self.phase {
            Phase::List => Action::List,
            Phase::Done => Action::Done,
            Phase::Stopped(fault) => Action::Stopped(fault.clone()),
            Phase::Unlink => {
                assert(here@.entries[here.next as int] == here.entries@[here.next as int]@);
                Action::Unlink(path::copy_bytes(&here.entries[here.next].name))
            },
            Phase::Work => {
                if here.next < here.entries.len() {
                    let entry = &here.entries[here.next];
                    assert(here@.entries[here.next as int] == entry@);
                    match entry.kind {
                        EntryKind::Other => Action::Unlink(path::copy_bytes(&entry.name)),
                        _ => Action::Open(path::copy_bytes(&entry.name)),
                    }
                } else {
                    let outer = &self.frames[n - 2];
                    assert(self@.frames[n - 2] == outer@);
                    assert(outer@.entries[outer.next as int] == outer.entries@[outer.next as int]@);
                    Action::RemoveDirectory(path::copy_bytes(&outer.entries[outer.next].name))
                }
            },
        }
    }

    /// Go on, or finish, in the innermost directory.
    fn go_on(&mut self)
        requires
            old(self)@.framed(),
        ensures
            final(self)@ == onward(old(self)@),
            final(self)@.wf(),
    {
        let n: usize = self.frames.len();
        let over: bool = self.frames[n - 1].next >= self.frames[n - 1].entries.len();
        assert(self@.frames.last() == self.frames@[n - 1]@);
        if n == 1 && over {
            self.phase = Phase::Done;
        } else {
            self.phase = Phase::Work;
        }
    }

    /// The innermost directory's next entry is gone.
    fn advance(&mut self)
        requires
            old(self)@.framed(),
            old(self)@.frames.last().next < old(self)@.frames.last().entries.len(),
        ensures
            final(self)@ == (SweepView {
                frames: old(self)@.frames.drop_last().push(advanced(old(self)@.frames.last())),
                phase: PhaseView::Work,
                ..old(self)@
            }),
    {
        let n: usize = self.frames.len();
        let ghost all = self@.frames;
        assert(all.last() == self.frames@[n - 1]@);
        if let Some(mut frame) = self.frames.pop() {
            assert(frame@ == all.last());
            let ghost view = frame@;
            assert(frame.entries.deep_view().len() == frame.entries.len());
            frame.next = frame.next + 1;
            assert(frame@ == advanced(view));
            let ghost after = frame@;
            self.frames.push(frame);
            assert(self.frames.deep_view() =~= all.drop_last().push(after));
        }
        self.phase = Phase::Work;
    }

    /// Take in what came of the last action.
    pub fn step(&mut self, event: Event)
        requires
            old(self)@.wf(),
            answers(next_action(old(self)@), event@),
        ensures
            final(self)@ == sweep_step(old(self)@, event@),
            final(self)@.wf(),
    {
        let ghost start = self@;
        let n: usize = self.frames.len();
        assert(start.frames.last() == self.frames@[n - 1]@);
        match event {
            Event::Failed(fault) => {
                self.phase = Phase::Stopped(fault);
            },
            Event::NotDirectory => {
                self.phase = Phase::Unlink;
            },
            Event::Listed(entries) => {
                let held = drop_dots(&entries);
                if let Some(mut frame) = self.frames.pop() {
                    frame.entries = held;
                    frame.next = 0;
                    let ghost view = frame@;
                    self.frames.push(frame);
                    assert(self.frames.deep_view() =~= start.frames.drop_last().push(view));
                }
                self.phase = Phase::Work;
                proof {
                    assert forall|i: int| 0 <= i < self@.frames.len() - 1 implies (
                    #[trigger] self@.frames[i]).next < self@.frames[i].entries.len() by {
                        assert(self@.frames[i] == start.frames[i]);
                    }
                }
                self.go_on();
            },
            Event::Opened(volume) => {
                let here = &self.frames[n - 1];
                assert(here@.entries[here.next as int] == here.entries@[here.next as int]@);
                let child = here.path.join_name(
                    self.platform,
                    here.entries[here.next].name.as_slice(),
                );
                assert(child@ == entry_path(start));
                if self.top.contains(self.platform, &volume) {
                    let entries: Vec<Entry> = Vec::new();
                    assert(entries.deep_view() =~= Seq::<EntryView>::empty());
                    let frame = Frame { path: child, entries, next: 0 };
                    let ghost view = frame@;
                    self.frames.push(frame);
                    assert(self.frames.deep_view() =~= start.frames.push(view));
                    self.phase = Phase::List;
                    proof {
                        assert forall|i: int| 0 <= i < self@.frames.len() - 1 implies (
                        #[trigger] self@.frames[i]).next < self@.frames[i].entries.len() by {
                            assert(self@.frames[i] == start.frames[i]);
                            if i == start.frames.len() - 1 {
                                assert(start.frames[i] == start.frames.last());
                            }
                        }
                    }
                } else {
                    let mut reason = "stopped at ".to_owned();
                    reason.append(child.display(Platform::Linux).as_str());
                    reason.append(
                        ": another filesystem is mounted there, and nothing on it was touched",
                    );
                    self.phase = Phase::Stopped(Fault::refusal(reason));
                }
            },
            Event::Removed => {
                let leaving: bool = match &self.phase {
                    Phase::Work => self.frames[n - 1].next >= self.frames[n - 1].entries.len(),
                    _ => false,
                };
                assert(leaving == (next_action(start) is RemoveDirectory));
                if leaving {
                    self.frames.pop();
                    assert(self.frames.deep_view() =~= start.frames.drop_last());
                    assert(start.frames.drop_last().last() == start.frames[n - 2]);
                    proof {
                        assert forall|i: int| 0 <= i < self@.frames.len() - 1 implies (
                        #[trigger] self@.frames[i]).next < self@.frames[i].entries.len() by {
                            assert(self@.frames[i] == start.frames[i]);
                        }
                    }
                }
                let ghost middle = self@;
                self.advance();
                proof {
                    assert forall|i: int| 0 <= i < self@.frames.len() - 1 implies (
                    #[trigger] self@.frames[i]).next < self@.frames[i].entries.len() by {
                        assert(self@.frames[i] == middle.frames[i]);
                        assert(middle.frames[i] == start.frames[i]);
                    }
                }
                self.go_on();
            },
        }
    }
}

// ---------------------------------------------------------------------
// What a sweep does to a tree.
// ---------------------------------------------------------------------

/// What an entry really is.
pub enum Node {
    /// Anything but a directory; a link too.
    Leaf,
    Directory { volume: Volume, children: Seq<Child> },
}

/// An entry of a directory, and what it really is.
pub struct Child {
    pub name: Seq<u8>,
    pub node: Node,
}

/// What is taken away, by the names that lead to it.
pub enum Op {
    Unlink(Seq<Seq<u8>>),
    RemoveDirectory(Seq<Seq<u8>>),
}

/// What takes away everything in the directory that `at` leads to: the
/// entries in order, each directory after all that is in it.
pub open spec fn ops_of(at: Seq<Seq<u8>>, children: Seq<Child>) -> Seq<Op>
    decreases children,
{
    if children.len() == 0 {
        seq![]
    } else {
        let there = at.push(children[0].name);
        (match children[0].node {
            Node::Leaf => seq![Op::Unlink(there)],
            Node::Directory { children: inner, .. } => ops_of(there, inner).push(
                Op::RemoveDirectory(there),
            ),
        }) + ops_of(at, children.skip(1))
    }
}

/// An open directory: where it is, what it really holds, and how much of
/// that is gone.
pub struct Level {
    pub at: Seq<Seq<u8>>,
    pub children: Seq<Child>,
    pub next: nat,
}

/// What is left to do in the directories outside the innermost: each is
/// waiting for the one inside it to be removed.
pub open spec fn outside(levels: Seq<Level>) -> Seq<Op>
    decreases levels.len(),
{
    if levels.len() == 0 {
        seq![]
    } else {
        let level = levels.last();
        seq![Op::RemoveDirectory(level.at.push(level.children[level.next as int].name))] + ops_of(
            level.at,
            level.children.skip(level.next as int + 1),
        ) + outside(levels.drop_last())
    }
}

/// What is left to do.
pub open spec fn remaining(levels: Seq<Level>) -> Seq<Op> {
    let level = levels.last();
    ops_of(level.at, level.children.skip(level.next as int)) + outside(levels.drop_last())
}

/// A listing names what is really there, and does not call a directory
/// something else.
pub open spec fn lists(entries: Seq<EntryView>, children: Seq<Child>) -> bool {
    &&& entries.len() == children.len()
    &&& forall|i: int|
        0 <= i < entries.len() ==> {
            &&& (#[trigger] entries[i]).name == children[i].name
            &&& children[i].node is Directory ==> entries[i].kind !is Other
        }
}

/// The sweep stands where the levels say, in a tree that is as they say.
pub open spec fn stands(sweep: SweepView, levels: Seq<Level>) -> bool {
    &&& sweep.wf()
    &&& sweep.frames.len() == levels.len()
    &&& forall|i: int|
        0 <= i < levels.len() ==> {
            &&& (#[trigger] sweep.frames[i]).next == levels[i].next
            &&& i < levels.len() - 1 || !(sweep.phase is List) ==> lists(
                sweep.frames[i].entries,
                levels[i].children,
            )
        }
    &&& sweep.phase is List ==> levels.last().next == 0
    &&& sweep.phase is Unlink ==> levels.last().children[levels.last().next as int].node is Leaf
}

/// The event tells what is really there, all of it on the volume being
/// swept, and nothing fails.
pub open spec fn truthful(sweep: SweepView, levels: Seq<Level>, event: EventView) -> bool {
    let level = levels.last();
    let child = level.children[level.next as int];
    match next_action(sweep) {
        ActionView::List => event matches EventView::Listed(entries) && lists(
            entries.filter(|e: EntryView| e.name != seq![46u8] && e.name != seq![46u8, 46u8]),
            level.children,
        ),
        ActionView::Open(_) => match child.node {
            Node::Leaf => event is NotDirectory,
            Node::Directory { volume, .. } => event == EventView::Opened(volume) && same_volume(
                sweep.platform,
                sweep.top,
                volume,
            ),
        },
        ActionView::Unlink(_) | ActionView::RemoveDirectory(_) => event is Removed,
        ActionView::Done | ActionView::Stopped(_) => false,
    }
}

/// What is left of a listing is everything in it that is not called `.` or
/// `..`, in order.
pub proof fn lemma_without_dots(entries: Seq<EntryView>)
    ensures
        without_dots(entries) == entries.filter(
            |e: EntryView| e.name != seq![46u8] && e.name != seq![46u8, 46u8],
        ),
        without_dots(entries).len() + entries.filter(
            |e: EntryView| e.name == seq![46u8] || e.name == seq![46u8, 46u8],
        ).len() == entries.len(),
    decreases entries.len(),
{
    reveal(Seq::filter);
    if entries.len() > 0 {
        lemma_without_dots(entries.drop_last());
    }
}

/// A level with one more entry gone.
pub open spec fn level_advanced(level: Level) -> Level {
    Level { next: level.next + 1, ..level }
}

/// Where the sweep stands after `event`.
pub open spec fn levels_after(sweep: SweepView, levels: Seq<Level>, event: EventView) -> Seq<
    Level,
> {
    let level = levels.last();
    let outer = levels.drop_last();
    match event {
        EventView::Opened(_) => {
            let child = level.children[level.next as int];
            levels.push(
                Level {
                    at: level.at.push(child.name),
                    children: child.node->children,
                    next: 0,
                },
            )
        },
        EventView::Removed => if next_action(sweep) is RemoveDirectory {
            outer.drop_last().push(level_advanced(outer.last()))
        } else {
            outer.push(level_advanced(level))
        },
        _ => levels,
    }
}

/// What doing the sweep's next action takes away.
pub open spec fn performed(sweep: SweepView, levels: Seq<Level>) -> Seq<Op> {
    match next_action(sweep) {
        ActionView::Unlink(name) => seq![Op::Unlink(levels.last().at.push(name))],
        ActionView::RemoveDirectory(name) => seq![
            Op::RemoveDirectory(levels[levels.len() - 2].at.push(name)),
        ],
        _ => seq![],
    }
}

/// Every step takes away the first of what is left to do, or nothing, and
/// leaves the rest: nothing is skipped, and nothing is done twice.
pub proof fn lemma_sweep_step(sweep: SweepView, levels: Seq<Level>, event: EventView)
    requires
        stands(sweep, levels),
        truthful(sweep, levels, event),
    ensures
        answers(next_action(sweep), event),
        stands(sweep_step(sweep, event), levels_after(sweep, levels, event)),
        remaining(levels) == performed(sweep, levels) + remaining(
            levels_after(sweep, levels, event),
        ),
{
    let level = levels.last();
    let here = sweep.frames.last();
    let n = levels.len() as int;
    let after = sweep_step(sweep, event);
    let there = levels_after(sweep, levels, event);
    assert(here == sweep.frames[n - 1] && level == levels[n - 1]);
    match next_action(sweep) {
        ActionView::List => {
            lemma_without_dots(event->Listed_0);
            assert(performed(sweep, levels) + remaining(there) =~= remaining(levels));
        },
        ActionView::Open(name) => {
            assert(here.entries[here.next as int].name == level.children[level.next as int].name);
            match level.children[level.next as int].node {
                Node::Leaf => {
                    assert(performed(sweep, levels) + remaining(there) =~= remaining(levels));
                },
                Node::Directory { volume, children } => {
                    lemma_sweep_opens(sweep, levels);
                    assert(there.drop_last() =~= levels);
                },
            }
        },
        ActionView::Unlink(name) => {
            lemma_sweep_unlinks(sweep, levels);
            assert(there.drop_last() =~= levels.drop_last());
        },
        ActionView::RemoveDirectory(name) => {
            lemma_sweep_leaves(sweep, levels);
        },
        _ => {},
    }
}

proof fn lemma_sweep_opens(sweep: SweepView, levels: Seq<Level>)
    requires
        stands(sweep, levels),
        next_action(sweep) is Open,
        levels.last().children[levels.last().next as int].node is Directory,
    ensures
        ({
            let level = levels.last();
            let child = level.children[level.next as int];
            remaining(levels) == remaining(
                levels.push(
                    Level { at: level.at.push(child.name), children: child.node->children, next: 0 },
                ),
            )
        }),
{
    let level = levels.last();
    let n = levels.len() as int;
    let here = sweep.frames.last();
    assert(here == sweep.frames[n - 1] && level == levels[n - 1]);
    let rest = level.children.skip(level.next as int);
    let child = level.children[level.next as int];
    let inner = child.node->children;
    let at = level.at.push(child.name);
    let deeper = levels.push(Level { at, children: inner, next: 0 });
    assert(rest[0] == child);
    assert(rest.skip(1) =~= level.children.skip(level.next as int + 1));
    assert(deeper.drop_last() =~= levels);
    assert(inner.skip(0) =~= inner);
    assert(remaining(deeper) =~= remaining(levels));
}

proof fn lemma_sweep_unlinks(sweep: SweepView, levels: Seq<Level>)
    requires
        stands(sweep, levels),
        next_action(sweep) is Unlink,
    ensures
        ({
            let after = levels.drop_last().push(level_advanced(levels.last()));
            &&& remaining(levels) == performed(sweep, levels) + remaining(after)
            &&& stands(sweep_step(sweep, EventView::Removed), after)
        }),
{
    let level = levels.last();
    let n = levels.len() as int;
    let here = sweep.frames.last();
    assert(here == sweep.frames[n - 1] && level == levels[n - 1]);
    let rest = level.children.skip(level.next as int);
    let child = level.children[level.next as int];
    assert(here.entries[here.next as int].name == child.name);
    assert(rest[0] == child);
    assert(rest.skip(1) =~= level.children.skip(level.next as int + 1));
    let after = levels.drop_last().push(level_advanced(level));
    assert(after.drop_last() =~= levels.drop_last());
    assert(remaining(levels) =~= performed(sweep, levels) + remaining(after));
    let next = sweep_step(sweep, EventView::Removed);
    assert forall|i: int| 0 <= i < after.len() implies {
        &&& (#[trigger] next.frames[i]).next == after[i].next
        &&& lists(next.frames[i].entries, after[i].children)
    } by {
        if i < n - 1 {
            assert(next.frames[i] == sweep.frames[i]);
            assert(after[i] == levels[i]);
        }
    }
    assert forall|i: int| 0 <= i < next.frames.len() - 1 implies (#[trigger] next.frames[i]).next
        < next.frames[i].entries.len() by {
        assert(next.frames[i] == sweep.frames[i]);
    }
}

proof fn lemma_sweep_leaves(sweep: SweepView, levels: Seq<Level>)
    requires
        stands(sweep, levels),
        next_action(sweep) is RemoveDirectory,
    ensures
        ({
            let outer = levels.drop_last();
            let after = outer.drop_last().push(level_advanced(outer.last()));
            &&& remaining(levels) == performed(sweep, levels) + remaining(after)
            &&& stands(sweep_step(sweep, EventView::Removed), after)
        }),
{
    let level = levels.last();
    let n = levels.len() as int;
    let here = sweep.frames.last();
    assert(here == sweep.frames[n - 1] && level == levels[n - 1]);
    assert(n >= 2);
    let outer = levels.drop_last();
    let above = outer.last();
    assert(above == levels[n - 2]);
    assert(sweep.frames[n - 2].entries[above.next as int].name
        == above.children[above.next as int].name);
    assert(level.children.skip(level.next as int) =~= Seq::<Child>::empty());
    assert(ops_of(level.at, Seq::<Child>::empty()) =~= Seq::<Op>::empty());
    let after = outer.drop_last().push(level_advanced(above));
    assert(after.drop_last() =~= outer.drop_last());
    assert(remaining(levels) =~= outside(outer));
    assert(remaining(levels) =~= performed(sweep, levels) + remaining(after));
    let next = sweep_step(sweep, EventView::Removed);
    assert(sweep.frames.drop_last().last() == sweep.frames[n - 2]);
    assert forall|i: int| 0 <= i < after.len() implies {
        &&& (#[trigger] next.frames[i]).next == after[i].next
        &&& lists(next.frames[i].entries, after[i].children)
    } by {
        if i < n - 2 {
            assert(next.frames[i] == sweep.frames[i]);
            assert(after[i] == levels[i]);
        } else {
            assert(lists(sweep.frames[n - 2].entries, levels[n - 2].children));
        }
    }
    assert forall|i: int| 0 <= i < next.frames.len() - 1 implies (#[trigger] next.frames[i]).next
        < next.frames[i].entries.len() by {
        assert(next.frames[i] == sweep.frames[i]);
    }
}

/// A sweep after `events`.
pub open spec fn sweep_after(sweep: SweepView, events: Seq<EventView>) -> SweepView
    decreases events.len(),
{
    if events.len() == 0 {
        sweep
    } else {
        sweep_after(sweep_step(sweep, events[0]), events.skip(1))
    }
}

/// Each of `events` is truthful when it comes.
pub open spec fn all_truthful(
    sweep: SweepView,
    levels: Seq<Level>,
    events: Seq<EventView>,
) -> bool
    decreases events.len(),
{
    events.len() > 0 ==> truthful(sweep, levels, events[0]) && all_truthful(
        sweep_step(sweep, events[0]),
        levels_after(sweep, levels, events[0]),
        events.skip(1),
    )
}

/// Everything that is taken away while `events` come.
pub open spec fn all_performed(
    sweep: SweepView,
    levels: Seq<Level>,
    events: Seq<EventView>,
) -> Seq<Op>
    decreases events.len(),
{
    if events.len() == 0 {
        seq![]
    } else {
        performed(sweep, levels) + all_performed(
            sweep_step(sweep, events[0]),
            levels_after(sweep, levels, events[0]),
            events.skip(1),
        )
    }
}

proof fn lemma_sweep_finishes(sweep: SweepView, levels: Seq<Level>, events: Seq<EventView>)
    requires
        stands(sweep, levels),
        all_truthful(sweep, levels, events),
        sweep_after(sweep, events).phase is Done,
        sweep.phase is Done ==> remaining(levels) == Seq::<Op>::empty(),
    ensures
        all_performed(sweep, levels, events) == remaining(levels),
    decreases events.len(),
{
    if events.len() > 0 {
        let event = events[0];
        let next = sweep_step(sweep, event);
        let there = levels_after(sweep, levels, event);
        lemma_sweep_step(sweep, levels, event);
        if next.phase is Done {
            let level = there.last();
            assert(next.frames.last() == next.frames[there.len() - 1]);
            assert(there.len() == 1);
            assert(lists(next.frames[0].entries, there[0].children));
            assert(level.children.skip(level.next as int) =~= Seq::<Child>::empty());
            assert(there.drop_last() =~= Seq::<Level>::empty());
            assert(remaining(there) =~= Seq::<Op>::empty());
        }
        lemma_sweep_finishes(next, there, events.skip(1));
    }
}

/// A sweep that ends well has emptied the directory: it took away every
/// entry there is below it, each once, and each directory after all that
/// was in it.
pub proof fn lemma_sweep_empties(
    platform: Platform,
    path: PathView,
    top: Volume,
    children: Seq<Child>,
    events: Seq<EventView>,
)
    requires
        all_truthful(
            sweep_start(platform, path, top),
            seq![Level { at: seq![], children, next: 0 }],
            events,
        ),
        sweep_after(sweep_start(platform, path, top), events).phase is Done,
    ensures
        all_performed(
            sweep_start(platform, path, top),
            seq![Level { at: seq![], children, next: 0 }],
            events,
        ) == ops_of(seq![], children),
{
    let sweep = sweep_start(platform, path, top);
    let level = Level { at: seq![], children, next: 0 };
    let levels = seq![level];
    assert(children.skip(0) =~= children);
    assert(levels.drop_last() =~= Seq::<Level>::empty());
    assert(remaining(levels) =~= ops_of(seq![], children));
    lemma_sweep_finishes(sweep, levels, events);
}

/// The names that lead to what an operation takes away.
pub open spec fn place(op: Op) -> Seq<Seq<u8>> {
    match op {
        Op::Unlink(at) => at,
        Op::RemoveDirectory(at) => at,
    }
}

/// `at` leads to `base` or into it.
pub open spec fn leads_into(at: Seq<Seq<u8>>, base: Seq<Seq<u8>>) -> bool {
    base.len() <= at.len() && at.take(base.len() as int) == base
}

/// No two entries of a directory have the same name, all the way down.
pub open spec fn distinct_names(children: Seq<Child>) -> bool
    decreases children,
{
    children.len() > 0 ==> {
        &&& forall|i: int|
            0 < i < children.len() ==> (#[trigger] children[i]).name != children[0].name
        &&& children[0].node matches Node::Directory { children: inner, .. } ==> distinct_names(
            inner,
        )
        &&& distinct_names(children.skip(1))
    }
}

/// `place` is below the directory that `at` leads to, by the name of one of
/// `children`.
pub open spec fn is_below(place: Seq<Seq<u8>>, at: Seq<Seq<u8>>, children: Seq<Child>) -> bool {
    &&& place.len() > at.len()
    &&& leads_into(place, at)
    &&& exists|i: int| 0 <= i < children.len() && (#[trigger] children[i]).name == place[at.len() as int]
}

/// Everything taken away is below the directory being emptied.
pub proof fn lemma_ops_below(at: Seq<Seq<u8>>, children: Seq<Child>)
    ensures
        forall|i: int|
            0 <= i < ops_of(at, children).len() ==> is_below(
                place(#[trigger] ops_of(at, children)[i]),
                at,
                children,
            ),
    decreases children,
{
    if children.len() > 0 {
        let there = at.push(children[0].name);
        let rest = children.skip(1);
        let tail = ops_of(at, rest);
        let all = ops_of(at, children);
        let head = match children[0].node {
            Node::Leaf => seq![Op::Unlink(there)],
            Node::Directory { children: inner, .. } => ops_of(there, inner).push(
                Op::RemoveDirectory(there),
            ),
        };
        assert(all =~= head + tail);
        lemma_ops_below(at, rest);
        if let Node::Directory { children: inner, .. } = children[0].node {
            lemma_ops_below(there, inner);
        }
        assert(there.take(at.len() as int) =~= at);
        assert forall|i: int| 0 <= i < all.len() implies is_below(
            place(#[trigger] all[i]),
            at,
            children,
        ) by {
            if i < head.len() {
                assert(all[i] == head[i]);
                let p = place(head[i]);
                if p != there {
                    if let Node::Directory { children: inner, .. } = children[0].node {
                        assert(head[i] == ops_of(there, inner)[i]);
                        assert(is_below(p, there, inner));
                        assert(p.take(at.len() as int) =~= there.take(at.len() as int)) by {
                            assert forall|k: int| 0 <= k < at.len() implies p[k] == #[trigger] there[k] by {
                                assert(p.take(there.len() as int)[k] == there[k]);
                            }
                        }
                        assert(p.take(there.len() as int)[at.len() as int] == there[at.len() as int]);
                    }
                }
                assert(children[0].name == p[at.len() as int]);
            } else {
                assert(all[i] == tail[i - head.len()]);
                let p = place(all[i]);
                let k = choose|k: int|
                    0 <= k < rest.len() && (#[trigger] rest[k]).name == p[at.len() as int];
                assert(children[k + 1].name == p[at.len() as int]);
            }
        }
    }
}

/// Once a directory is removed, nothing in it is touched any more: its
/// contents went before it.
pub proof fn lemma_contents_first(at: Seq<Seq<u8>>, children: Seq<Child>)
    requires
        distinct_names(children),
    ensures
        forall|i: int, j: int|
            0 <= i < j < ops_of(at, children).len() && (#[trigger] ops_of(at, children)[i])
                is RemoveDirectory ==> !leads_into(
                place(#[trigger] ops_of(at, children)[j]),
                place(ops_of(at, children)[i]),
            ),
    decreases children,
{
    if children.len() > 0 {
        let there = at.push(children[0].name);
        let rest = children.skip(1);
        let tail = ops_of(at, rest);
        let all = ops_of(at, children);
        let head = match children[0].node {
            Node::Leaf => seq![Op::Unlink(there)],
            Node::Directory { children: inner, .. } => ops_of(there, inner).push(
                Op::RemoveDirectory(there),
            ),
        };
        assert(all =~= head + tail);
        lemma_contents_first(at, rest);
        lemma_ops_below(at, rest);
        if let Node::Directory { children: inner, .. } = children[0].node {
            lemma_contents_first(there, inner);
            lemma_ops_below(there, inner);
        }
        assert forall|i: int, j: int|
            0 <= i < j < all.len() && (#[trigger] all[i]) is RemoveDirectory implies !leads_into(
            place(#[trigger] all[j]),
            place(all[i]),
        ) by {
            if i >= head.len() {
                assert(all[i] == tail[i - head.len()] && all[j] == tail[j - head.len()]);
            } else {
                assert(all[i] == head[i]);
                let p = place(all[i]);
                let q = place(all[j]);
                // Where the operation comes from below `there`, its place
                // starts with the first child's name.
                if i < head.len() - 1 {
                    assert(head[i] == ops_of(there, children[0].node->children)[i]);
                    assert(is_below(p, there, children[0].node->children));
                    assert(p.take(there.len() as int)[at.len() as int] == there[at.len() as int]);
                } else {
                    assert(p == there);
                }
                assert(p[at.len() as int] == children[0].name);
                if j >= head.len() {
                    assert(all[j] == tail[j - head.len()]);
                    assert(is_below(q, at, rest));
                    let k = choose|k: int|
                        0 <= k < rest.len() && (#[trigger] rest[k]).name == q[at.len() as int];
                    assert(children[k + 1].name == q[at.len() as int]);
                    if leads_into(q, p) {
                        assert(q.take(p.len() as int)[at.len() as int] == p[at.len() as int]);
                    }
                } else if j < head.len() - 1 {
                    assert(head[j] == ops_of(there, children[0].node->children)[j]);
                    assert(all[j] == head[j]);
                } else {
                    assert(all[j] == head[j]);
                    assert(q == there);
                }
            }
        }
    }
}

/// What can come of an action leaves something to do, or ends the sweep.
pub proof fn lemma_sweep_wf(sweep: SweepView, event: EventView)
    requires
        sweep.wf(),
        answers(next_action(sweep), event),
    ensures
        sweep_step(sweep, event).wf(),
{
    let after = sweep_step(sweep, event);
    let n = sweep.frames.len() as int;
    assert(sweep.frames.last() == sweep.frames[n - 1]);
    assert forall|i: int| 0 <= i < after.frames.len() - 1 implies (#[trigger] after.frames[i]).next
        < after.frames[i].entries.len() by {
        assert(after.frames[i] == sweep.frames[i]);
    }
}

/// The last of `events` is taken in after all the others.
pub proof fn lemma_sweep_after_push(sweep: SweepView, events: Seq<EventView>, event: EventView)
    ensures
        sweep_after(sweep, events.push(event)) == sweep_step(sweep_after(sweep, events), event),
    decreases events.len(),
{
    let all = events.push(event);
    if events.len() == 0 {
        assert(all.skip(1) =~= Seq::<EventView>::empty());
        assert(sweep_after(sweep_step(sweep, event), all.skip(1)) == sweep_step(sweep, event));
    } else {
        assert(all.skip(1) =~= events.skip(1).push(event));
        lemma_sweep_after_push(sweep_step(sweep, events[0]), events.skip(1), event);
    }
}

/// A sweep that meets another volume, or any failure, stops for good: it
/// asks for nothing more.
pub proof fn lemma_sweep_stops(sweep: SweepView, event: EventView)
    requires
        event is Failed || (event matches EventView::Opened(volume) && !same_volume(
            sweep.platform,
            sweep.top,
            volume,
        )),
    ensures
        next_action(sweep_step(sweep, event)) is Stopped,
        forall|more: EventView| !answers(next_action(sweep_step(sweep, event)), more),
{
}

} // verus!
