//! The order in which a plan is carried out on the file system.
//!
//! Expired files go first. Then each bundle is written, and only when it is on
//! disk are the files it holds removed. A caller that stops at the first step
//! that fails therefore never loses a file: what is gone was meant to go or is
//! in a bundle that was written.

use crate::plan::{BundlePlan, DirectoryPlan};
use vstd::prelude::*;

verus! {

/// One change to the directory.
#[derive(Clone, Copy, Debug, PartialEq, Eq, Structural)]
pub enum Step {
    /// Delete the expired file at this index of the plan.
    DeleteExpired(usize),
    /// Pack the members of the bundle at this index and write the bundle
    /// file.
    WriteBundle(usize),
    /// Remove the file that is member `1` of the bundle at index `0`.
    RemoveMember(usize, usize),
}

/// The deletions of `count` expired files, in their order.
pub open spec fn deletions(count: nat) -> Seq<Step> {
    Seq::new(count, |i: int| Step::DeleteExpired(i as usize))
}

/// The removals of the `count` members of bundle `k`, in their order.
pub open spec fn removals(k: int, count: nat) -> Seq<Step> {
    Seq::new(count, |i: int| Step::RemoveMember(k as usize, i as usize))
}

/// The steps for bundle `k`: it is written, then its members are removed.
pub open spec fn bundle_steps(bundles: Seq<BundlePlan>, k: int) -> Seq<Step> {
    seq![Step::WriteBundle(k as usize)] + removals(k, bundles[k].group.members@.len())
}

/// The steps for the first `count` bundles, bundle after bundle.
pub open spec fn archive_steps(bundles: Seq<BundlePlan>, count: nat) -> Seq<Step>
    decreases count,
{
    if count == 0 {
        Seq::empty()
    } else {
        archive_steps(bundles, (count - 1) as nat) + bundle_steps(bundles, count - 1)
    }
}

/// The steps of a plan in the order in which they are to be taken.
pub open spec fn schedule_of(plan: DirectoryPlan) -> Seq<Step> {
    deletions(plan.expired@.len()) + archive_steps(plan.bundles@, plan.bundles@.len())
}

/// The step names a file or a bundle that the plan has.
pub open spec fn step_in_plan(plan: DirectoryPlan, step: Step) -> bool {
    match step {
        Step::DeleteExpired(i) => i < plan.expired@.len(),
        Step::WriteBundle(k) => k < plan.bundles@.len(),
        Step::RemoveMember(k, i) => k < plan.bundles@.len() && i
            < plan.bundles@[k as int].group.members@.len(),
    }
}

/// Lays out the steps of a plan in the order in which they are to be taken.
pub fn schedule(plan: &DirectoryPlan) -> (steps: Vec<Step>)
    ensures
        steps@ == schedule_of(*plan),
{
    let mut steps: Vec<Step> = Vec::new();
    let mut i: usize = 0;
    while i < plan.expired.len()
        invariant
            i <= plan.expired.len(),
            steps@ == deletions(i as nat),
        decreases plan.expired.len() - i,
    {
        steps.push(Step::DeleteExpired(i));
        i += 1;
        proof {
            assert(steps@ =~= deletions(i as nat));
        }
    }
    let mut k: usize = 0;
    proof {
        assert(steps@ =~= deletions(plan.expired@.len()) + archive_steps(plan.bundles@, 0));
    }
    while k < plan.bundles.len()
        invariant
            k <= plan.bundles.len(),
            steps@ == deletions(plan.expired@.len()) + archive_steps(plan.bundles@, k as nat),
        decreases plan.bundles.len() - k,
    {
        let ghost done = steps@;
        steps.push(Step::WriteBundle(k));
        let count: usize = plan.bundles[k].group.members.len();
        let mut m: usize = 0;
        while m < count
            invariant
                m <= count,
                k < plan.bundles.len(),
                count == plan.bundles@[k as int].group.members@.len(),
                steps@ == done + seq![Step::WriteBundle(k)] + removals(k as int, m as nat),
            decreases count - m,
        {
            steps.push(Step::RemoveMember(k, m));
            m += 1;
            proof {
                assert(steps@ =~= done + seq![Step::WriteBundle(k)] + removals(k as int, m as nat));
            }
        }
        proof {
            assert(steps@ =~= done + bundle_steps(plan.bundles@, k as int));
            assert(steps@ =~= deletions(plan.expired@.len()) + archive_steps(
                plan.bundles@,
                (k + 1) as nat,
            ));
        }
        k += 1;
    }
    steps
}

/// What the steps for the first `count` bundles are: each names one of these
/// bundles, and each removal comes after the writing of its bundle.
proof fn lemma_archive_steps(bundles: Seq<BundlePlan>, count: nat, n: int)
    requires
        count <= bundles.len(),
        bundles.len() <= usize::MAX,
        forall|k: int| 0 <= k < bundles.len() ==> (#[trigger] bundles[k]).group.members@.len()
            <= usize::MAX,
        0 <= n < archive_steps(bundles, count).len(),
    ensures
        !(archive_steps(bundles, count)[n] is DeleteExpired),
        archive_steps(bundles, count)[n] matches Step::WriteBundle(k) ==> k < count,
        archive_steps(bundles, count)[n] matches Step::RemoveMember(k, i) ==> {
            &&& k < count
            &&& i < bundles[k as int].group.members@.len()
            &&& exists|m: int| 0 <= m < n && archive_steps(bundles, count)[m] == Step::WriteBundle(k)
        },
    decreases count,
{
    if count > 0 {
        let ahead = archive_steps(bundles, (count - 1) as nat);
        let last = bundle_steps(bundles, count - 1);
        let all = archive_steps(bundles, count);
        if n < ahead.len() {
            lemma_archive_steps(bundles, (count - 1) as nat, n);
            assert(all[n] == ahead[n]);
            if let Step::RemoveMember(k, i) = all[n] {
                let m = choose|m: int| 0 <= m < n && ahead[m] == Step::WriteBundle(k);
                assert(all[m] == Step::WriteBundle(k));
            }
        } else {
            let at = n - ahead.len();
            assert(all[n] == last[at]);
            if at > 0 {
                assert(all[ahead.len() as int] == last[0]);
                assert(last[0] == Step::WriteBundle((count - 1) as usize));
                assert(last[at] == Step::RemoveMember((count - 1) as usize, (at - 1) as usize));
            }
        }
    }
}

/// The steps for the first `count` bundles hold the removal of each member of
/// each of these bundles.
proof fn lemma_archive_steps_are_complete(bundles: Seq<BundlePlan>, count: nat, k: int, i: int)
    requires
        count <= bundles.len(),
        0 <= k < count,
        0 <= i < bundles[k].group.members@.len(),
    ensures
        archive_steps(bundles, count).contains(Step::RemoveMember(k as usize, i as usize)),
    decreases count,
{
    let ahead = archive_steps(bundles, (count - 1) as nat);
    let last = bundle_steps(bundles, count - 1);
    let all = archive_steps(bundles, count);
    if k < count - 1 {
        lemma_archive_steps_are_complete(bundles, (count - 1) as nat, k, i);
        let r = choose|r: int|
            0 <= r < ahead.len() && ahead[r] == Step::RemoveMember(k as usize, i as usize);
        assert(all[r] == ahead[r]);
    } else {
        assert(all[ahead.len() + 1 + i] == last[1 + i]);
    }
}

/// Every step of the schedule names a file or a bundle of the plan.
pub proof fn lemma_steps_are_in_plan(plan: DirectoryPlan, n: int)
    requires
        0 <= n < schedule_of(plan).len(),
    ensures
        step_in_plan(plan, schedule_of(plan)[n]),
{
    lemma_plan_fits(plan);
    let first = deletions(plan.expired@.len());
    if n >= first.len() {
        lemma_archive_steps(plan.bundles@, plan.bundles@.len(), n - first.len());
    }
}

/// The deletions of the expired files are the first steps, in the order of
/// the files: nothing is archived before the expired files are gone.
pub proof fn lemma_deletions_come_first(plan: DirectoryPlan, n: int)
    requires
        0 <= n < schedule_of(plan).len(),
    ensures
        n < plan.expired@.len() ==> schedule_of(plan)[n] == Step::DeleteExpired(n as usize),
        n >= plan.expired@.len() ==> !(schedule_of(plan)[n] is DeleteExpired),
{
    lemma_plan_fits(plan);
    let first = deletions(plan.expired@.len());
    if n >= first.len() {
        lemma_archive_steps(plan.bundles@, plan.bundles@.len(), n - first.len());
    }
}

/// A file that a bundle holds is removed only after the bundle has been
/// written.
pub proof fn lemma_removal_follows_writing(plan: DirectoryPlan, n: int, k: usize, i: usize)
    requires
        0 <= n < schedule_of(plan).len(),
        schedule_of(plan)[n] == Step::RemoveMember(k, i),
    ensures
        exists|m: int| 0 <= m < n && schedule_of(plan)[m] == Step::WriteBundle(k),
{
    lemma_plan_fits(plan);
    let first = deletions(plan.expired@.len());
    let rest = archive_steps(plan.bundles@, plan.bundles@.len());
    assert(n >= first.len());
    lemma_archive_steps(plan.bundles@, plan.bundles@.len(), n - first.len());
    let m = choose|m: int| 0 <= m < n - first.len() && rest[m] == Step::WriteBundle(k);
    assert(schedule_of(plan)[first.len() + m] == Step::WriteBundle(k));
}

/// The schedule leaves nothing out: it deletes every expired file, writes
/// every bundle, and removes every member of every bundle.
pub proof fn lemma_schedule_is_complete(plan: DirectoryPlan)
    ensures
        forall|i: usize|
            i < plan.expired@.len() ==> #[trigger] schedule_of(plan).contains(
                Step::DeleteExpired(i),
            ),
        forall|k: usize|
            k < plan.bundles@.len() ==> #[trigger] schedule_of(plan).contains(Step::WriteBundle(k)),
        forall|k: usize, i: usize|
            k < plan.bundles@.len() && i < plan.bundles@[k as int].group.members@.len()
                ==> #[trigger] schedule_of(plan).contains(Step::RemoveMember(k, i)),
{
    let all = schedule_of(plan);
    let first = deletions(plan.expired@.len());
    let rest = archive_steps(plan.bundles@, plan.bundles@.len());
    assert forall|i: usize| i < plan.expired@.len() implies #[trigger] all.contains(
        Step::DeleteExpired(i),
    ) by {
        assert(all[i as int] == Step::DeleteExpired(i));
    }
    assert forall|k: usize| k < plan.bundles@.len() implies #[trigger] all.contains(
        Step::WriteBundle(k),
    ) by {
        lemma_archive_steps_hold_writing(plan.bundles@, plan.bundles@.len(), k as int);
        let w = choose|w: int| 0 <= w < rest.len() && rest[w] == Step::WriteBundle(k);
        assert(all[first.len() + w] == rest[w]);
    }
    assert forall|k: usize, i: usize|
        k < plan.bundles@.len() && i
            < plan.bundles@[k as int].group.members@.len() implies #[trigger] all.contains(
        Step::RemoveMember(k, i),
    ) by {
        lemma_archive_steps_are_complete(plan.bundles@, plan.bundles@.len(), k as int, i as int);
        let r = choose|r: int| 0 <= r < rest.len() && rest[r] == Step::RemoveMember(k, i);
        assert(all[first.len() + r] == rest[r]);
    }
}

/// The steps for the first `count` bundles hold the writing of each of them.
proof fn lemma_archive_steps_hold_writing(bundles: Seq<BundlePlan>, count: nat, k: int)
    requires
        count <= bundles.len(),
        0 <= k < count,
    ensures
        archive_steps(bundles, count).contains(Step::WriteBundle(k as usize)),
    decreases count,
{
    let ahead = archive_steps(bundles, (count - 1) as nat);
    let last = bundle_steps(bundles, count - 1);
    let all = archive_steps(bundles, count);
    if k < count - 1 {
        lemma_archive_steps_hold_writing(bundles, (count - 1) as nat, k);
        let w = choose|w: int| 0 <= w < ahead.len() && ahead[w] == Step::WriteBundle(k as usize);
        assert(all[w] == ahead[w]);
    } else {
        assert(all[ahead.len() as int] == last[0]);
    }
}

/// The lists of a plan are vectors, so their lengths fit `usize`.
proof fn lemma_plan_fits(plan: DirectoryPlan)
    ensures
        plan.expired@.len() <= usize::MAX,
        plan.bundles@.len() <= usize::MAX,
        forall|k: int|
            0 <= k < plan.bundles@.len() ==> (#[trigger] plan.bundles@[k]).group.members@.len()
                <= usize::MAX,
{
    assert(plan.expired.len() <= usize::MAX);
    assert(plan.bundles.len() <= usize::MAX);
    assert forall|k: int| 0 <= k < plan.bundles@.len() implies (#[trigger] plan.bundles@[
        k
    ]).group.members@.len() <= usize::MAX by {
        assert(plan.bundles@[k].group.members.len() <= usize::MAX);
    }
}

} // verus!
