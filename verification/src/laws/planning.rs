//! What holds of every plan.

use vstd::prelude::*;

use crate::guards;
use crate::judge;
use crate::judge::{Facts, FactsView};
use crate::laws::guarding;
use crate::laws::handing;
use crate::order;
use crate::path;
use crate::path::{Part, PathBuf, PathView};
use crate::platform::Platform;
use crate::removal;
use crate::removal::{
    BlockedView, Candidate, CandidateView, Plan, RemovalMode, Target, TargetView, World, WorldView,
};

verus! {

/// A path is objected to exactly where the mounts are not known, a guard
/// refuses it, or it is not where it seems; it is told the first of these.
pub proof fn lemma_objected_exactly(
    world: WorldView,
    path: PathView,
    root: PathView,
    facts: FactsView,
)
    ensures
        ({
            let says = removal::objection(world, path, root, facts);
            let guard = judge::refusal(
                world.platform,
                path,
                root,
                world.home,
                world.mounts->Ok_0,
                world.trees,
                facts,
            );
            let link = judge::link_refusal(
                world.platform,
                path,
                root,
                world.real_root,
                world.home,
                facts.real_parent,
            );
            &&& says is None <==> world.mounts is Ok && guard is None && link is None
            &&& world.mounts matches Err(reason) ==> says == Some(reason)
            &&& world.mounts is Ok && guard is Some ==> says == guard
            &&& world.mounts is Ok && guard is None ==> says == link
        }),
{
}

/// Why a candidate is objected to, by its normalized path.
pub open spec fn reason_for(world: WorldView, root: PathView, candidate: CandidateView) -> Option<
    Seq<char>,
> {
    removal::objection(
        world,
        guards::clean(world.platform, candidate.target.path),
        root,
        candidate.facts,
    )
}

proof fn lemma_parted(world: WorldView, root: PathView, candidates: Seq<CandidateView>)
    ensures
        removal::blocked_of(world, root, candidates) == candidates.filter(
            |c: CandidateView| reason_for(world, root, c) is Some,
        ).map_values(
            |c: CandidateView|
                BlockedView { path: c.target.path, reason: reason_for(world, root, c)->0 },
        ),
        removal::accepted_of(world, root, candidates) == candidates.filter(
            |c: CandidateView| reason_for(world, root, c) is None,
        ).map_values(
            |c: CandidateView|
                TargetView {
                    path: guards::clean(world.platform, c.target.path),
                    bytes: c.target.bytes,
                    is_dir: c.target.is_dir,
                    hidden: c.target.hidden,
                },
        ),
    decreases candidates.len(),
{
    reveal(Seq::filter);
    let bad = |c: CandidateView| reason_for(world, root, c) is Some;
    let good = |c: CandidateView| reason_for(world, root, c) is None;
    let block = |c: CandidateView|
        BlockedView { path: c.target.path, reason: reason_for(world, root, c)->0 };
    let accept = |c: CandidateView|
        TargetView {
            path: guards::clean(world.platform, c.target.path),
            bytes: c.target.bytes,
            is_dir: c.target.is_dir,
            hidden: c.target.hidden,
        };
    if candidates.len() > 0 {
        let front = candidates.drop_last();
        lemma_parted(world, root, front);
        let last = candidates.last();
        assert(reason_for(world, root, last) == removal::objection_to(world, root, last));
        if bad(last) {
            assert(front.filter(bad).push(last).map_values(block) =~= front.filter(bad).map_values(
                block,
            ).push(block(last)));
        } else {
            assert(front.filter(good).push(last).map_values(accept) =~= front.filter(
                good,
            ).map_values(accept).push(accept(last)));
        }
    } else {
        assert(candidates.filter(bad).map_values(block) =~= Seq::<BlockedView>::empty());
        assert(candidates.filter(good).map_values(accept) =~= Seq::<TargetView>::empty());
    }
}

/// A plan blocks exactly the marked paths that are objected to, in the order
/// they were marked, each by the path it was marked by and with its reason;
/// every other one is a target or covered by one, by its normalized path and
/// otherwise unchanged, and nothing else is.
pub proof fn lemma_blocked_exactly(
    world: WorldView,
    candidates: Seq<CandidateView>,
    root: PathView,
)
    ensures
        ({
            let plan = removal::plan_of(world, candidates, root);
            let scanned = guards::clean(world.platform, root);
            &&& plan.root == scanned
            &&& plan.blocked == candidates.filter(
                |c: CandidateView| reason_for(world, scanned, c) is Some,
            ).map_values(
                |c: CandidateView|
                    BlockedView { path: c.target.path, reason: reason_for(world, scanned, c)->0 },
            )
            &&& plan.targets.to_multiset().add(plan.covered.to_multiset()) == candidates.filter(
                |c: CandidateView| reason_for(world, scanned, c) is None,
            ).map_values(
                |c: CandidateView|
                    TargetView {
                        path: guards::clean(world.platform, c.target.path),
                        bytes: c.target.bytes,
                        is_dir: c.target.is_dir,
                        hidden: c.target.hidden,
                    },
            ).to_multiset()
        }),
{
    lemma_parted(world, guards::clean(world.platform, root), candidates);
    removal::lemma_plan_accounts_for_all(world, candidates, root);
}

/// Whether `inner` is at `outer` or inside it, as the guards compare them.
pub open spec fn holds(platform: Platform, outer: TargetView, inner: TargetView) -> bool {
    guards::key(platform, outer.path.parts).parts.is_prefix_of(
        guards::key(platform, inner.path.parts).parts,
    )
}

/// Whether one of `targets` holds `inner`.
pub open spec fn one_holds(
    platform: Platform,
    targets: Seq<TargetView>,
    inner: TargetView,
) -> bool {
    exists|i: int| 0 <= i < targets.len() && holds(platform, #[trigger] targets[i], inner)
}

/// No target of a plan holds another; everything covered is held by a
/// target; and of marks for one place the one whose path comes first is the
/// target.
pub proof fn lemma_outermost_exactly(
    world: WorldView,
    candidates: Seq<CandidateView>,
    root: PathView,
)
    ensures
        ({
            let plan = removal::plan_of(world, candidates, root);
            &&& forall|i: int, j: int|
                0 <= i < plan.targets.len() && 0 <= j < plan.targets.len() && i != j ==> !holds(
                    world.platform,
                    #[trigger] plan.targets[i],
                    #[trigger] plan.targets[j],
                )
            &&& forall|j: int|
                0 <= j < plan.covered.len() ==> one_holds(
                    world.platform,
                    plan.targets,
                    #[trigger] plan.covered[j],
                )
            &&& forall|i: int, j: int|
                0 <= i < plan.targets.len() && 0 <= j < plan.covered.len() && holds(
                    world.platform,
                    #[trigger] plan.covered[j],
                    #[trigger] plan.targets[i],
                ) ==> !path::path_less(plan.covered[j].path.parts, plan.targets[i].path.parts)
        }),
{
    let plan = removal::plan_of(world, candidates, root);
    let platform = world.platform;
    removal::lemma_plan_targets_apart(world, candidates, root);
    removal::lemma_plan_covers(world, candidates, root);
    assert forall|i: int, j: int|
        0 <= i < plan.targets.len() && 0 <= j < plan.targets.len() && i != j implies !holds(
        platform,
        #[trigger] plan.targets[i],
        #[trigger] plan.targets[j],
    ) by {
        guarding::lemma_inside(
            guards::key(platform, plan.targets[j].path.parts).parts,
            guards::key(platform, plan.targets[i].path.parts).parts,
        );
    }
    assert forall|j: int| 0 <= j < plan.covered.len() implies one_holds(
        platform,
        plan.targets,
        #[trigger] plan.covered[j],
    ) by {
        assert(removal::is_covered(platform, plan.covered[j], plan.targets));
        let i = choose|i: int|
            0 <= i < plan.targets.len() && #[trigger] guards::is_within(
                platform,
                plan.covered[j].path.parts,
                plan.targets[i].path.parts,
            );
        guarding::lemma_inside(
            guards::key(platform, plan.covered[j].path.parts).parts,
            guards::key(platform, plan.targets[i].path.parts).parts,
        );
        assert(holds(platform, plan.targets[i], plan.covered[j]));
    }
    let accepted = removal::accepted_of(world, plan.root, candidates);
    let all = removal::in_path_order(accepted);
    let n = all.len();
    removal::lemma_path_order_orders(accepted);
    removal::lemma_places(platform, all, false, n);
    removal::lemma_places(platform, all, true, n);
    let outer = removal::places(platform, all, false, n);
    let inner = removal::places(platform, all, true, n);
    assert forall|i: int, j: int|
        0 <= i < plan.targets.len() && 0 <= j < plan.covered.len() && holds(
            platform,
            #[trigger] plan.covered[j],
            #[trigger] plan.targets[i],
        ) implies !path::path_less(plan.covered[j].path.parts, plan.targets[i].path.parts) by {
        let a = outer[i];
        let b = inner[j];
        assert(plan.targets[i] == all[a] && plan.covered[j] == all[b]);
        assert(removal::is_inner(platform, all, a) == false);
        assert(!removal::covers(platform, all, b, a));
        guarding::lemma_inside(
            guards::key(platform, all[a].path.parts).parts,
            guards::key(platform, all[b].path.parts).parts,
        );
        assert(guards::is_within(platform, all[a].path.parts, all[b].path.parts));
        if a == b {
            assert(removal::is_inner(platform, all, b) == true);
        }
        assert(a < b);
    }
}

/// The names of two paths that agree up to there decide their order, byte
/// by byte; a path comes before what is in it, and the components of a path
/// in the order prefix, root, `.`, `..`, name.
pub proof fn lemma_order_of_paths(front: Seq<Part>, a: Part, b: Part, x: Seq<Part>, y: Seq<Part>)
    requires
        a != b,
    ensures
        path::path_less(front, front.push(a) + x),
        !path::path_less(front.push(a) + x, front),
        path::path_less(front.push(a) + x, front.push(b) + y) == path::part_less(a, b),
        a is Name && b is Name ==> path::part_less(a, b) == order::bytes_less(a->Name_0, b->Name_0),
        !(a is Name) && b is Name ==> path::part_less(a, b),
        a is Prefix && !(b is Prefix) ==> path::part_less(a, b),
        a is Root && (b is Cur || b is Parent) ==> path::part_less(a, b),
        a is Cur && b is Parent ==> path::part_less(a, b),
{
    let less = path::part_order();
    let one = front.push(a) + x;
    let two = front.push(b) + y;
    let n = front.len() as int;
    assert(one.take(n) =~= two.take(n));
    assert(one.take(n) =~= front);
    order::lemma_lex_skip(one, two, n, less);
    assert(one.skip(n)[0] == a && two.skip(n)[0] == b);
    assert(front.take(n) =~= front);
    order::lemma_lex_skip(front, one, n, less);
    order::lemma_lex_skip(one, front, n, less);
    assert(front.skip(n).len() == 0);
}

/// Byte strings are ordered by the first byte in which they differ, and one
/// that begins another comes before it.
pub proof fn lemma_order_of_bytes(front: Seq<u8>, a: u8, b: u8, x: Seq<u8>, y: Seq<u8>)
    ensures
        order::bytes_less(front, front.push(a) + x),
        !order::bytes_less(front.push(a) + x, front),
        a < b ==> order::bytes_less(front.push(a) + x, front.push(b) + y),
        a > b ==> !order::bytes_less(front.push(a) + x, front.push(b) + y),
{
    let less = order::byte_less();
    let one = front.push(a) + x;
    let two = front.push(b) + y;
    let n = front.len() as int;
    assert(one.take(n) =~= two.take(n));
    assert(one.take(n) =~= front);
    order::lemma_lex_skip(one, two, n, less);
    assert(one.skip(n)[0] == a && two.skip(n)[0] == b);
    assert(front.take(n) =~= front);
    order::lemma_lex_skip(front, one, n, less);
    order::lemma_lex_skip(one, front, n, less);
    assert(front.skip(n).len() == 0);
}

proof fn lemma_inserted_among(targets: Seq<TargetView>, target: TargetView, parts: Seq<Part>)
    ensures
        removal::inserted(targets, target).filter(|t: TargetView| t.path.parts == parts)
            == targets.push(target).filter(|t: TargetView| t.path.parts == parts),
    decreases targets.len(),
{
    let same = |t: TargetView| t.path.parts == parts;
    reveal_with_fuel(Seq::filter, 3);
    path::lemma_path_order();
    assert(targets.push(target).drop_last() =~= targets);
    if targets.len() > 0 && path::path_less(target.path.parts, targets.last().path.parts) {
        let front = targets.drop_last();
        lemma_inserted_among(front, target, parts);
        let out = removal::inserted(front, target).push(targets.last());
        assert(out.drop_last() =~= removal::inserted(front, target));
        assert(front.push(target).drop_last() =~= front);
        assert(!(same(target) && same(targets.last())));
        let among = removal::inserted(front, target).filter(same);
        assert(out.filter(same) == if same(targets.last()) {
            among.push(targets.last())
        } else {
            among
        });
    }
}

/// Among marks of one path the order in which they were marked stays.
pub proof fn lemma_equal_paths_stay_in_order(targets: Seq<TargetView>, parts: Seq<Part>)
    ensures
        removal::in_path_order(targets).filter(|t: TargetView| t.path.parts == parts)
            == targets.filter(|t: TargetView| t.path.parts == parts),
    decreases targets.len(),
{
    reveal(Seq::filter);
    if targets.len() > 0 {
        let front = targets.drop_last();
        lemma_equal_paths_stay_in_order(front, parts);
        let ordered = removal::in_path_order(front);
        lemma_inserted_among(ordered, targets.last(), parts);
        assert(ordered.push(targets.last()).drop_last() =~= ordered);
    }
}

/// What is planned is the plan of the candidates, and what is told of one
/// path is its objection.
pub proof fn lemma_planned(
    world: &World,
    candidates: &[Candidate],
    root: &PathBuf,
    plan: Plan,
    path: &PathBuf,
    facts: &Facts,
    says: Option<String>,
)
    ensures
        call_ensures(removal::plan, (world, candidates, root), plan) ==> plan@ == removal::plan_of(
            world@,
            candidates.deep_view(),
            root@,
        ),
        call_ensures(removal::object, (world, path, root, facts), says) ==> (match says {
            Some(reason) => removal::objection(world@, path@, root@, facts@) == Some(reason@),
            None => removal::objection(world@, path@, root@, facts@) is None,
        }),
{
}

/// A plan measures what its targets measured when they were marked, and
/// nothing of what they cover.
pub proof fn lemma_plan_measures(plan: &Plan, bytes: u64)
    requires
        call_ensures(Plan::bytes, (plan,), bytes),
    ensures
        bytes == handing::sum_of(plan@.targets),
{
    handing::lemma_total(plan@.targets);
}

/// What the two ways to remove are called, and that one of them cannot be
/// undone.
pub proof fn lemma_modes_told(mode: RemovalMode, label: &'static str, detail: &'static str)
    ensures
        call_ensures(RemovalMode::label, (mode,), label) ==> {
            &&& mode is Permanent ==> label@ == "Delete permanently"@
            &&& mode is Trash ==> label@ == "Move to trash"@
        },
        call_ensures(RemovalMode::detail, (mode,), detail) ==> {
            &&& mode is Permanent ==> detail@ == "rm -rf: unrecoverable"@
            &&& mode is Trash ==> detail@ == "recoverable until the trash is emptied"@
        },
{
}

/// Two targets are equal exactly where their paths have the same components
/// and they are the same in size, kind and whether they are hidden.
pub proof fn lemma_targets_equal(one: &Target, two: &Target, equal: bool)
    requires
        call_ensures(Target::eq, (one, two), equal),
    ensures
        equal <==> one@.path.parts == two@.path.parts && one.bytes == two.bytes && one.is_dir
            == two.is_dir && one.hidden == two.hidden,
{
}

} // verus!
