//! What a plan means for each file of the directory.
//!
//! Every listed file that is no bundle has exactly one fate, decided by its
//! modification time alone: deleted, bundled with the files of its day, or
//! left as it is. Bundles of earlier runs are never touched, and a pass that
//! follows another at once finds nothing to do.

use crate::bundle::{bundle_name_spec, lemma_bundle_names_differ_by_day};
use crate::catalog::{
    is_bundle, is_rotated, lemma_ordering_is_rearrangement, lemma_ordering_keeps_files,
    lemma_rotated_files, rotated_of, FileRecord,
};
use crate::cutoffs::Cutoffs;
use crate::instant::Timestamp;
use crate::grouping::{
    is_day_group, lemma_groups_are_not_empty, lemma_member_has_group, members_of,
};
use crate::plan::{
    archived_files, catalog_of, groups_of, in_archivable_band, is_archive_plan,
    is_directory_plan, BundlePlan, DirectoryPlan,
};
use vstd::prelude::*;

verus! {

/// File `i` of bundle `k` is `x`, it is of the bundle's day, which is a day
/// that the modification of `x` can have, and the bundle is named after the
/// directory and that day.
pub open spec fn bundle_holds(
    bundles: Seq<BundlePlan>,
    dir_name: Seq<char>,
    k: int,
    i: int,
    x: FileRecord,
) -> bool {
    &&& 0 <= k < bundles.len()
    &&& 0 <= i < bundles[k].group.members@.len()
    &&& bundles[k].group.members@[i].record == x
    &&& bundles[k].group.members@[i].day == bundles[k].group.day
    &&& bundles[k].group.day.fits(x.mod_time)
    &&& bundles[k].file_name@ == bundle_name_spec(dir_name, bundles[k].group.day)
}

/// The plan has a place for each listed file that is no bundle.
proof fn lemma_catalog_holds_rotated_files(
    plan: DirectoryPlan,
    dir_name: Seq<char>,
    entries: Seq<FileRecord>,
    c: Cutoffs,
    x: FileRecord,
)
    requires
        is_directory_plan(plan, dir_name, entries, c),
    ensures
        catalog_of(plan).contains(x) <==> entries.contains(x) && is_rotated(x),
{
    lemma_rotated_files(entries, x);
    lemma_ordering_keeps_files(catalog_of(plan), rotated_of(entries), x);
}

/// The three bands of a plan hold the listed files that are no bundles, each
/// as often as it is listed: no file is lost and none is dealt with twice.
pub proof fn lemma_plan_covers_listing(
    plan: DirectoryPlan,
    dir_name: Seq<char>,
    entries: Seq<FileRecord>,
    c: Cutoffs,
)
    requires
        is_directory_plan(plan, dir_name, entries, c),
    ensures
        catalog_of(plan).to_multiset() == rotated_of(entries).to_multiset(),
        plan.expired@.len() + archived_files(plan.bundles@).len() + plan.fresh@.len()
            == rotated_of(entries).len(),
{
    lemma_ordering_is_rearrangement(catalog_of(plan), rotated_of(entries));
}

/// A listed file that is no bundle and is modified before the delete boundary
/// is deleted: it is among the expired files, in no bundle, and not among the
/// files that stay.
pub proof fn lemma_expired_files_go(
    plan: DirectoryPlan,
    dir_name: Seq<char>,
    entries: Seq<FileRecord>,
    c: Cutoffs,
    x: FileRecord,
)
    requires
        is_directory_plan(plan, dir_name, entries, c),
        entries.contains(x),
        is_rotated(x),
        x.mod_time.precedes(c.delete_from),
    ensures
        plan.expired@.contains(x),
        !archived_files(plan.bundles@).contains(x),
        !plan.fresh@.contains(x),
{
    let catalog = catalog_of(plan);
    let archived = archived_files(plan.bundles@);
    let start = plan.expired@.len() as int;
    let end = start + archived.len();
    lemma_catalog_holds_rotated_files(plan, dir_name, entries, c, x);
    let i = choose|i: int| 0 <= i < catalog.len() && catalog[i] == x;
    assert(plan.expired@[i] == x);
    if archived.contains(x) {
        let j = choose|j: int| 0 <= j < archived.len() && archived[j] == x;
        assert(catalog[start + j] == x);
    }
    if plan.fresh@.contains(x) {
        let j = choose|j: int| 0 <= j < plan.fresh@.len() && plan.fresh@[j] == x;
        assert(catalog[end + j] == x);
    }
}

/// A listed file that is no bundle and is modified at or after the delete
/// boundary and before the archive boundary is archived: it is neither
/// deleted nor left, and it stands in a bundle of its day, named after the
/// directory and that day.
pub proof fn lemma_archivable_files_are_bundled(
    plan: DirectoryPlan,
    dir_name: Seq<char>,
    entries: Seq<FileRecord>,
    c: Cutoffs,
    x: FileRecord,
)
    requires
        is_directory_plan(plan, dir_name, entries, c),
        entries.contains(x),
        is_rotated(x),
        in_archivable_band(x, c),
    ensures
        !plan.expired@.contains(x),
        !plan.fresh@.contains(x),
        exists|k: int, i: int| #[trigger] bundle_holds(plan.bundles@, dir_name, k, i, x),
{
    let catalog = catalog_of(plan);
    let archived = archived_files(plan.bundles@);
    let groups = groups_of(plan.bundles@);
    let start = plan.expired@.len() as int;
    let end = start + archived.len();
    lemma_catalog_holds_rotated_files(plan, dir_name, entries, c, x);
    let n = choose|n: int| 0 <= n < catalog.len() && catalog[n] == x;
    if plan.expired@.contains(x) {
        let j = choose|j: int| 0 <= j < plan.expired@.len() && plan.expired@[j] == x;
        assert(catalog[j] == x);
    }
    if plan.fresh@.contains(x) {
        let j = choose|j: int| 0 <= j < plan.fresh@.len() && plan.fresh@[j] == x;
        assert(catalog[end + j] == x);
    }
    assert(start <= n < end);
    let j = n - start;
    assert(archived[j] == x);
    lemma_member_has_group(groups, j);
    let (k, i) = choose|k: int, i: int|
        0 <= k < groups.len() && 0 <= i < groups[k].members@.len() && (
        #[trigger] groups[k].members@[i]) == members_of(groups)[j];
    assert(groups[k] == plan.bundles@[k].group);
    assert(is_day_group(plan.bundles@[k].group));
    assert(bundle_holds(plan.bundles@, dir_name, k, i, x));
}

/// No two bundles of a plan have the same name.
pub proof fn lemma_bundle_names_are_distinct(
    bundles: Seq<BundlePlan>,
    files: Seq<FileRecord>,
    dir_name: Seq<char>,
    k: int,
    l: int,
)
    requires
        is_archive_plan(bundles, files, dir_name),
        0 <= k < l < bundles.len(),
    ensures
        bundles[k].file_name@ != bundles[l].file_name@,
{
    let groups = groups_of(bundles);
    assert(groups[k].day != groups[l].day);
    lemma_bundle_names_differ_by_day(dir_name, bundles[k].group.day, bundles[l].group.day);
}

/// With the delete boundary not after the archive boundary, a listed file
/// that is no bundle and is modified at or after the archive boundary stays:
/// it is among the fresh files, not deleted, and in no bundle.
pub proof fn lemma_fresh_files_stay(
    plan: DirectoryPlan,
    dir_name: Seq<char>,
    entries: Seq<FileRecord>,
    c: Cutoffs,
    x: FileRecord,
)
    requires
        c.wf(),
        is_directory_plan(plan, dir_name, entries, c),
        entries.contains(x),
        is_rotated(x),
        c.archive_from.at_or_before(x.mod_time),
    ensures
        plan.fresh@.contains(x),
        !plan.expired@.contains(x),
        !archived_files(plan.bundles@).contains(x),
{
    let catalog = catalog_of(plan);
    let archived = archived_files(plan.bundles@);
    let start = plan.expired@.len() as int;
    let end = start + archived.len();
    lemma_catalog_holds_rotated_files(plan, dir_name, entries, c, x);
    let n = choose|n: int| 0 <= n < catalog.len() && catalog[n] == x;
    assert(end <= n);
    assert(plan.fresh@[n - end] == x);
    if plan.expired@.contains(x) {
        let j = choose|j: int| 0 <= j < plan.expired@.len() && plan.expired@[j] == x;
        assert(catalog[j] == x);
    }
    if archived.contains(x) {
        let j = choose|j: int| 0 <= j < archived.len() && archived[j] == x;
        assert(catalog[start + j] == x);
    }
}

/// A file that is not older than an instant at or after the delete boundary
/// is not deleted. With the boundaries of `compute_cutoffs` and the instant
/// `delete_days` days before the run, this says that no file younger than the
/// configured age is ever deleted.
pub proof fn lemma_young_files_are_not_deleted(
    plan: DirectoryPlan,
    dir_name: Seq<char>,
    entries: Seq<FileRecord>,
    c: Cutoffs,
    limit: Timestamp,
    x: FileRecord,
)
    requires
        is_directory_plan(plan, dir_name, entries, c),
        c.delete_from.at_or_before(limit),
        limit.at_or_before(x.mod_time),
    ensures
        !plan.expired@.contains(x),
{
    if plan.expired@.contains(x) {
        let j = choose|j: int| 0 <= j < plan.expired@.len() && plan.expired@[j] == x;
        assert(catalog_of(plan)[j] == x);
    }
}

/// A bundle of an earlier run has no place in the plan: it is not deleted,
/// not archived again, and not counted among the fresh files.
pub proof fn lemma_bundles_are_left_alone(
    plan: DirectoryPlan,
    dir_name: Seq<char>,
    entries: Seq<FileRecord>,
    c: Cutoffs,
    x: FileRecord,
)
    requires
        is_directory_plan(plan, dir_name, entries, c),
        is_bundle(x),
    ensures
        !plan.expired@.contains(x),
        !archived_files(plan.bundles@).contains(x),
        !plan.fresh@.contains(x),
{
    let catalog = catalog_of(plan);
    let archived = archived_files(plan.bundles@);
    let start = plan.expired@.len() as int;
    let end = start + archived.len();
    lemma_catalog_holds_rotated_files(plan, dir_name, entries, c, x);
    if plan.expired@.contains(x) {
        let j = choose|j: int| 0 <= j < plan.expired@.len() && plan.expired@[j] == x;
        assert(catalog[j] == x);
    }
    if archived.contains(x) {
        let j = choose|j: int| 0 <= j < archived.len() && archived[j] == x;
        assert(catalog[start + j] == x);
    }
    if plan.fresh@.contains(x) {
        let j = choose|j: int| 0 <= j < plan.fresh@.len() && plan.fresh@[j] == x;
        assert(catalog[end + j] == x);
    }
}

/// A second pass right after the first finds nothing to do. Where the files
/// that the second listing holds beside bundles are files that the first pass
/// left as fresh, and the boundaries are the same, the second plan deletes
/// nothing and writes no bundle.
pub proof fn lemma_second_pass_is_idle(
    first: DirectoryPlan,
    second: DirectoryPlan,
    dir_name: Seq<char>,
    first_entries: Seq<FileRecord>,
    second_entries: Seq<FileRecord>,
    c: Cutoffs,
)
    requires
        c.wf(),
        is_directory_plan(first, dir_name, first_entries, c),
        is_directory_plan(second, dir_name, second_entries, c),
        forall|x: FileRecord|
            second_entries.contains(x) && is_rotated(x) ==> #[trigger] first.fresh@.contains(x),
    ensures
        second.expired@.len() == 0,
        second.bundles@.len() == 0,
{
    let catalog = catalog_of(second);
    let archived = archived_files(second.bundles@);
    let start = second.expired@.len() as int;
    let first_end = first.expired@.len() + archived_files(first.bundles@).len();
    assert forall|n: int| 0 <= n < catalog.len() implies c.archive_from.at_or_before(
        (#[trigger] catalog[n]).mod_time,
    ) by {
        let x = catalog[n];
        lemma_catalog_holds_rotated_files(second, dir_name, second_entries, c, x);
        assert(first.fresh@.contains(x));
        let j = choose|j: int| 0 <= j < first.fresh@.len() && first.fresh@[j] == x;
        assert(catalog_of(first)[first_end + j] == x);
    }
    if start > 0 {
        assert(catalog[0].mod_time.precedes(c.delete_from));
    }
    if archived.len() > 0 {
        assert(catalog[start].mod_time.precedes(c.archive_from));
    }
    lemma_groups_are_not_empty(groups_of(second.bundles@));
}

} // verus!
