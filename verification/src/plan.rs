//! What one pass over a directory does: which files go, which are bundled
//! under which name, and which stay.

use crate::bundle::{bundle_name, bundle_name_spec};
use crate::calendar::is_same_day;
use crate::catalog::{
    build_catalog, bundles_of, is_rotated, is_time_ordering_of, lemma_filter_keeps_all,
    lemma_ordering_keeps_files, lemma_rotated_files, rotated_of, split_listing, FileRecord,
};
use crate::cutoffs::Cutoffs;
use crate::grouping::{
    date_files, day_fits, group_by_day, is_day_group, lemma_group_has_file_of_its_day,
    lemma_groups_are_not_empty, members_of, records_of, DayGroup,
};
use crate::partition::{partition, parts_into_bands};
use vstd::prelude::*;
use vstd::string::*;

verus! {

/// One bundle to make: the files of a day and the name of the bundle file.
#[derive(Clone, Debug, PartialEq, Eq)]
pub struct BundlePlan {
    pub file_name: String,
    pub group: DayGroup,
}

/// The pass over one directory.
#[derive(Clone, Debug, PartialEq, Eq)]
pub struct DirectoryPlan {
    /// The files to delete, oldest first.
    pub expired: Vec<FileRecord>,
    /// The bundles to write, in the order of the files they hold; the members
    /// of each go once the bundle is on disk.
    pub bundles: Vec<BundlePlan>,
    /// The files that stay as they are, oldest first.
    pub fresh: Vec<FileRecord>,
}

/// Why a directory is left untouched.
#[derive(Clone, Copy, Debug, PartialEq, Eq, Structural)]
pub enum PlanError {
    /// The time zone gave no calendar day for a file, or one with a year of
    /// more than four digits.
    NoLocalDay,
    /// The calendar has no such day as a group's, or not in a year of at most
    /// four digits, so its bundle has no name.
    NoSuchDay,
    /// Two runs of files are of the same day, so two bundles would take one
    /// name.
    DayRepeats,
    /// The directory already holds a file with the name of a bundle to write.
    BundleExists,
}

/// The groups of the bundles.
pub open spec fn groups_of(bundles: Seq<BundlePlan>) -> Seq<DayGroup> {
    bundles.map_values(|b: BundlePlan| b.group)
}

/// The files that the bundles hold, bundle after bundle.
pub open spec fn archived_files(bundles: Seq<BundlePlan>) -> Seq<FileRecord> {
    records_of(members_of(groups_of(bundles)))
}

/// No two groups are of the same day.
pub open spec fn days_distinct(groups: Seq<DayGroup>) -> bool {
    forall|k: int, l: int|
        0 <= k < l < groups.len() ==> (#[trigger] groups[k]).day != (#[trigger] groups[l]).day
}

/// Each bundle is named after the directory and the day of its group.
pub open spec fn names_follow(bundles: Seq<BundlePlan>, dir_name: Seq<char>) -> bool {
    forall|k: int|
        0 <= k < bundles.len() ==> {
            &&& (#[trigger] bundles[k]).group.day.wf()
            &&& bundles[k].file_name@ == bundle_name_spec(dir_name, bundles[k].group.day)
        }
}

/// Some file of `existing` has the name of one of the bundles.
pub open spec fn name_taken(bundles: Seq<BundlePlan>, existing: Seq<FileRecord>) -> bool {
    exists|k: int, b: int|
        0 <= k < bundles.len() && 0 <= b < existing.len() && (#[trigger] bundles[k]).file_name@ == (
        #[trigger] existing[b]).name@
}

/// Each file that the bundles hold has a day that can be the day of its
/// modification in some time zone.
pub open spec fn days_fit(bundles: Seq<BundlePlan>) -> bool {
    forall|j: int|
        0 <= j < members_of(groups_of(bundles)).len() ==> day_fits(
            #[trigger] members_of(groups_of(bundles))[j],
        )
}

/// The bundles archive exactly `files`: they hold them in their order, each
/// with a day that its modification time can have, each bundle the files of
/// one day, no day in two bundles, each under the name that directory and day
/// give.
pub open spec fn is_archive_plan(
    bundles: Seq<BundlePlan>,
    files: Seq<FileRecord>,
    dir_name: Seq<char>,
) -> bool {
    &&& archived_files(bundles) == files
    &&& days_fit(bundles)
    &&& forall|k: int| 0 <= k < bundles.len() ==> is_day_group((#[trigger] bundles[k]).group)
    &&& days_distinct(groups_of(bundles))
    &&& names_follow(bundles, dir_name)
}

/// The catalog that a plan was made of: its three bands, end to end.
pub open spec fn catalog_of(plan: DirectoryPlan) -> Seq<FileRecord> {
    plan.expired@ + archived_files(plan.bundles@) + plan.fresh@
}

/// `plan` is the pass over a directory named `dir_name` that lists `entries`,
/// under the boundaries `c`.
///
/// The bundles of earlier runs are no part of it. The other files, oldest
/// first and ties as listed, fall into the three bands; the expired band is
/// deleted, the archivable band is bundled by day, the fresh band stays. No
/// bundle takes the name of a bundle that is already there.
pub open spec fn is_directory_plan(
    plan: DirectoryPlan,
    dir_name: Seq<char>,
    entries: Seq<FileRecord>,
    c: Cutoffs,
) -> bool {
    let archived = archived_files(plan.bundles@);
    &&& is_time_ordering_of(catalog_of(plan), rotated_of(entries))
    &&& parts_into_bands(
        catalog_of(plan),
        c,
        plan.expired@.len() as int,
        (plan.expired@.len() + archived.len()) as int,
    )
    &&& is_archive_plan(plan.bundles@, archived, dir_name)
    &&& !name_taken(plan.bundles@, bundles_of(entries))
}

/// The file is modified at or after the delete boundary and before the
/// archive boundary.
pub open spec fn in_archivable_band(r: FileRecord, c: Cutoffs) -> bool {
    c.delete_from.at_or_before(r.mod_time) && r.mod_time.precedes(c.archive_from)
}

/// The listing holds a file to archive: one that is no bundle and lies in the
/// archivable band.
pub open spec fn has_archivable(entries: Seq<FileRecord>, c: Cutoffs) -> bool {
    exists|i: int|
        0 <= i < entries.len() && is_rotated(#[trigger] entries[i]) && in_archivable_band(
            entries[i],
            c,
        )
}

/// Whether the day of group `k` is also the day of a group ahead of it.
fn day_seen_before(groups: &Vec<DayGroup>, k: usize) -> (r: bool)
    requires
        k < groups.len(),
    ensures
        r == exists|j: int| 0 <= j < k && (#[trigger] groups@[j]).day == groups@[k as int].day,
{
    let mut j: usize = 0;
    while j < k
        invariant
            j <= k < groups.len(),
            forall|i: int| 0 <= i < j ==> (#[trigger] groups@[i]).day != groups@[k as int].day,
        decreases k - j,
    {
        if is_same_day(&groups[j].day, &groups[k].day) {
            return true;
        }
        j += 1;
    }
    false
}

/// Whether no two groups are of the same day.
pub fn days_are_distinct(groups: &Vec<DayGroup>) -> (r: bool)
    ensures
        r == days_distinct(groups@),
{
    let mut k: usize = 0;
    while k < groups.len()
        invariant
            k <= groups.len(),
            forall|i: int, j: int|
                0 <= i < j < k ==> (#[trigger] groups@[i]).day != (#[trigger] groups@[j]).day,
        decreases groups.len() - k,
    {
        if day_seen_before(groups, k) {
            return false;
        }
        k += 1;
    }
    true
}

/// Whether a file of `existing` has the given name.
fn name_exists(name: &String, existing: &Vec<FileRecord>) -> (r: bool)
    ensures
        r == exists|b: int| 0 <= b < existing@.len() && (#[trigger] existing@[b]).name@ == name@,
{
    let mut b: usize = 0;
    while b < existing.len()
        invariant
            b <= existing.len(),
            forall|i: int| 0 <= i < b ==> (#[trigger] existing@[i]).name@ != name@,
        decreases existing.len() - b,
    {
        if existing[b].name == *name {
            return true;
        }
        b += 1;
    }
    false
}

/// Whether a file of `existing` has the name of one of the bundles.
pub fn is_name_taken(bundles: &Vec<BundlePlan>, existing: &Vec<FileRecord>) -> (r: bool)
    ensures
        r == name_taken(bundles@, existing@),
{
    let mut k: usize = 0;
    while k < bundles.len()
        invariant
            k <= bundles.len(),
            forall|i: int, b: int|
                0 <= i < k && 0 <= b < existing@.len() ==> (#[trigger] bundles@[i]).file_name@ != (
                #[trigger] existing@[b]).name@,
        decreases bundles.len() - k,
    {
        if name_exists(&bundles[k].file_name, existing) {
            return true;
        }
        k += 1;
    }
    false
}

/// All groups are of days that the calendar has, in years of at most four
/// digits.
pub open spec fn days_exist(groups: Seq<DayGroup>) -> bool {
    forall|k: int| 0 <= k < groups.len() ==> (#[trigger] groups[k]).day.wf()
}

/// Names the bundle of each group after the directory and the group's day.
///
/// Groups of which two share a day are refused, since their bundles would
/// share a name; so are groups with a day that the calendar does not have,
/// since its bundle would have no name.
pub fn plan_bundles(groups: Vec<DayGroup>, dir_name: &str) -> (r: Result<Vec<BundlePlan>, PlanError>)
    ensures
        !days_distinct(groups@) ==> r == Err::<Vec<BundlePlan>, PlanError>(PlanError::DayRepeats),
        days_distinct(groups@) && !days_exist(groups@) ==> r == Err::<Vec<BundlePlan>, PlanError>(
            PlanError::NoSuchDay,
        ),
        days_distinct(groups@) && days_exist(groups@) ==> r is Ok,
        r matches Ok(bundles) ==> {
            &&& groups_of(bundles@) == groups@
            &&& names_follow(bundles@, dir_name@)
        },
{
    if !days_are_distinct(&groups) {
        return Err(PlanError::DayRepeats);
    }
    let ghost all = groups@;
    let mut bundles: Vec<BundlePlan> = Vec::new();
    for group in it: groups
        invariant
            it.seq() == all,
            days_distinct(all),
            groups_of(bundles@) == all.take(it.index() as int),
            names_follow(bundles@, dir_name@),
    {
        let file_name = match bundle_name(dir_name, &group.day) {
            Some(name) => name,
            None => {
                assert(!all[it.index() as int].day.wf());
                return Err(PlanError::NoSuchDay);
            },
        };
        proof {
            let next = BundlePlan { file_name, group };
            assert(groups_of(bundles@.push(next)) =~= groups_of(bundles@).push(group));
            assert(all.take(it.index() + 1) =~= all.take(it.index() as int).push(group));
        }
        bundles.push(BundlePlan { file_name, group });
    }
    proof {
        assert(all.take(all.len() as int) =~= all);
        assert forall|k: int| 0 <= k < all.len() implies (#[trigger] all[k]).day.wf() by {
            assert(groups_of(bundles@)[k] == bundles@[k].group);
        }
    }
    Ok(bundles)
}

/// Plans the bundles for the archivable files of a directory, which come
/// oldest first: one bundle for each run of files of the same local day.
///
/// Files that are named as bundles are set aside: no bundle goes into a
/// bundle. No other files give no bundle. The time zone decides the day of
/// each file; where it has none for a file, or the same day comes back for
/// two runs, there is no plan.
pub fn archive_files(files: Vec<FileRecord>, dir_name: &str) -> (r: Result<
    Vec<BundlePlan>,
    PlanError,
>)
    ensures
        r matches Ok(bundles) ==> is_archive_plan(bundles@, rotated_of(files@), dir_name@),
        r matches Err(e) ==> e == PlanError::NoLocalDay || e == PlanError::DayRepeats,
        rotated_of(files@).len() == 0 ==> (r matches Ok(bundles) && bundles@.len() == 0),
{
    let (rotated, _) = split_listing(files);
    let dated = match date_files(rotated) {
        Some(dated) => dated,
        None => {
            return Err(PlanError::NoLocalDay);
        },
    };
    let groups = group_by_day(dated);
    proof {
        lemma_groups_are_not_empty(groups@);
        assert forall|k: int| 0 <= k < groups@.len() implies (#[trigger] groups@[k]).day.wf() by {
            lemma_group_has_file_of_its_day(groups@, k);
        }
    }
    match plan_bundles(groups, dir_name) {
        Ok(bundles) => {
            proof {
                assert forall|k: int| 0 <= k < bundles@.len() implies is_day_group(
                    (#[trigger] bundles@[k]).group,
                ) by {
                    assert(groups_of(bundles@)[k] == bundles@[k].group);
                }
            }
            Ok(bundles)
        },
        Err(e) => Err(e),
    }
}

/// The number of files that the bundles hold; `None` if it is more than
/// `usize` can count.
pub fn archived_count(bundles: &Vec<BundlePlan>) -> (r: Option<usize>)
    ensures
        r == (if archived_files(bundles@).len() <= usize::MAX {
            Some(archived_files(bundles@).len() as usize)
        } else {
            None
        }),
{
    let mut n: usize = 0;
    let mut k: usize = 0;
    proof {
        assert(groups_of(bundles@.take(0)) =~= Seq::<DayGroup>::empty());
    }
    while k < bundles.len()
        invariant
            k <= bundles.len(),
            n == members_of(groups_of(bundles@.take(k as int))).len(),
        decreases bundles.len() - k,
    {
        proof {
            let seen = groups_of(bundles@.take(k as int));
            let next = groups_of(bundles@.take(k + 1));
            assert(next.drop_last() =~= seen);
            assert(next.last() == bundles@[k as int].group);
            lemma_members_grow(groups_of(bundles@), k + 1);
            assert(groups_of(bundles@).take(k + 1) =~= next);
        }
        n = match n.checked_add(bundles[k].group.members.len()) {
            Some(sum) => sum,
            None => {
                return None;
            },
        };
        k += 1;
    }
    proof {
        assert(bundles@.take(bundles@.len() as int) =~= bundles@);
    }
    Some(n)
}

/// The first `k` groups hold no more files than all of them.
proof fn lemma_members_grow(groups: Seq<DayGroup>, k: int)
    requires
        0 <= k <= groups.len(),
    ensures
        members_of(groups.take(k)).len() <= members_of(groups).len(),
    decreases groups.len() - k,
{
    if k < groups.len() {
        lemma_members_grow(groups, k + 1);
        assert(groups.take(k + 1).drop_last() =~= groups.take(k));
    } else {
        assert(groups.take(k) =~= groups);
    }
}

/// Puts the plan of a directory together from its three bands, unless the
/// directory already holds a file under the name of one of the bundles: a
/// bundle that is there is never written over.
pub fn finish_plan(
    expired: Vec<FileRecord>,
    bundles: Vec<BundlePlan>,
    fresh: Vec<FileRecord>,
    existing: &Vec<FileRecord>,
) -> (r: Result<DirectoryPlan, PlanError>)
    ensures
        name_taken(bundles@, existing@) ==> r == Err::<DirectoryPlan, PlanError>(
            PlanError::BundleExists,
        ),
        !name_taken(bundles@, existing@) ==> r == Ok::<DirectoryPlan, PlanError>(
            DirectoryPlan { expired, bundles, fresh },
        ),
{
    if is_name_taken(&bundles, existing) {
        Err(PlanError::BundleExists)
    } else {
        Ok(DirectoryPlan { expired, bundles, fresh })
    }
}

/// Plans the pass over one directory from its listing.
///
/// The listing is catalogued, the catalog is parted into its three bands, and
/// the archivable band is cut into bundles. Nothing of this touches a file: a
/// directory for which there is no plan stays as it is. With nothing to
/// archive there is always a plan. Otherwise the time zone decides, by the
/// days it gives the files to archive, whether there is one; a plan that comes
/// back is the one that `is_directory_plan` describes. A directory is refused
/// for a bundle that exists only if it holds a bundle of an earlier run.
pub fn process_dir(dir_name: &str, entries: Vec<FileRecord>, cutoffs: &Cutoffs) -> (r: Result<
    DirectoryPlan,
    PlanError,
>)
    ensures
        r matches Ok(plan) ==> is_directory_plan(plan, dir_name@, entries@, *cutoffs),
        r matches Err(e) ==> e != PlanError::NoSuchDay,
        r == Err::<DirectoryPlan, PlanError>(PlanError::BundleExists) ==> bundles_of(entries@).len()
            > 0 && has_archivable(entries@, *cutoffs),
        !has_archivable(entries@, *cutoffs) ==> r is Ok,
{
    let ghost listed = entries@;
    let catalog = build_catalog(entries);
    let ranges = partition(&catalog.files, cutoffs);
    let ghost sorted = catalog.files@;
    let mut expired = catalog.files;
    let mut archivable = expired.split_off(ranges.start);
    let fresh = archivable.split_off(ranges.end - ranges.start);
    proof {
        assert(sorted =~= expired@ + archivable@ + fresh@);
        assert forall|j: int| 0 <= j < archivable@.len() implies is_rotated(
            #[trigger] archivable@[j],
        ) && in_archivable_band(archivable@[j], *cutoffs) && listed.contains(archivable@[j]) by {
            let x = archivable@[j];
            assert(sorted[ranges.start + j] == x);
            lemma_ordering_keeps_files(sorted, rotated_of(listed), x);
            lemma_rotated_files(listed, x);
        }
        if archivable@.len() > 0 {
            let x = archivable@[0];
            let i = choose|i: int| 0 <= i < listed.len() && listed[i] == x;
            assert(is_rotated(listed[i]) && in_archivable_band(listed[i], *cutoffs));
        }
        lemma_filter_keeps_all(archivable@, |r: FileRecord| is_rotated(r));
    }
    let bundles = match archive_files(archivable, dir_name) {
        Ok(bundles) => bundles,
        Err(e) => {
            return Err(e);
        },
    };
    finish_plan(expired, bundles, fresh, &catalog.bundles)
}

} // verus!
