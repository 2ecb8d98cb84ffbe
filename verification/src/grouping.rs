//! Runs of files that share a calendar day.

use crate::calendar::{is_same_day, local_day, CalendarDay};
use crate::catalog::FileRecord;
use vstd::prelude::*;

verus! {

/// A file together with the calendar day of its modification in the
/// machine's time zone.
#[derive(Clone, Debug, PartialEq, Eq)]
pub struct DatedFile {
    pub record: FileRecord,
    pub day: CalendarDay,
}

/// The files of one bundle: a run of neighbours in the catalog that were
/// modified on the same day.
#[derive(Clone, Debug, PartialEq, Eq)]
pub struct DayGroup {
    pub day: CalendarDay,
    pub members: Vec<DatedFile>,
}

/// The files without their days.
pub open spec fn records_of(files: Seq<DatedFile>) -> Seq<FileRecord> {
    files.map_values(|f: DatedFile| f.record)
}

/// The members of all groups, group after group.
pub open spec fn members_of(groups: Seq<DayGroup>) -> Seq<DatedFile>
    decreases groups.len(),
{
    if groups.len() == 0 {
        Seq::empty()
    } else {
        members_of(groups.drop_last()) + groups.last().members@
    }
}

/// The group has a member, and all its members are of the group's day.
pub open spec fn is_day_group(g: DayGroup) -> bool {
    &&& g.members@.len() > 0
    &&& forall|i: int| 0 <= i < g.members@.len() ==> (#[trigger] g.members@[i]).day == g.day
}

/// Groups that follow each other are of different days.
pub open spec fn neighbours_differ(groups: Seq<DayGroup>) -> bool {
    forall|k: int, l: int|
        0 <= k && l == k + 1 && l < groups.len() ==> (#[trigger] groups[k]).day != (
        #[trigger] groups[l]).day
}

/// `groups` cuts `files` into its runs of equal days: the groups hold the
/// files in their order, each group is one day's, and no run is cut in two.
pub open spec fn is_day_grouping(groups: Seq<DayGroup>, files: Seq<DatedFile>) -> bool {
    &&& members_of(groups) == files
    &&& forall|k: int| 0 <= k < groups.len() ==> is_day_group(#[trigger] groups[k])
    &&& neighbours_differ(groups)
}

proof fn lemma_members_of_push(groups: Seq<DayGroup>, g: DayGroup)
    ensures
        members_of(groups.push(g)) == members_of(groups) + g.members@,
{
    assert(groups.push(g).drop_last() =~= groups);
}

/// Groups that each have a member hold at least as many files as there are
/// groups; so groups without files are no groups.
pub proof fn lemma_groups_are_not_empty(groups: Seq<DayGroup>)
    requires
        forall|k: int| 0 <= k < groups.len() ==> is_day_group(#[trigger] groups[k]),
    ensures
        members_of(groups).len() >= groups.len(),
    decreases groups.len(),
{
    if groups.len() > 0 {
        assert(is_day_group(groups[groups.len() - 1]));
        lemma_groups_are_not_empty(groups.drop_last());
    }
}

/// Every file that the groups hold stands in one of them.
pub proof fn lemma_member_has_group(groups: Seq<DayGroup>, j: int)
    requires
        0 <= j < members_of(groups).len(),
    ensures
        exists|k: int, i: int|
            0 <= k < groups.len() && 0 <= i < groups[k].members@.len() && (
            #[trigger] groups[k].members@[i]) == members_of(groups)[j],
    decreases groups.len(),
{
    let ahead = members_of(groups.drop_last());
    if j < ahead.len() {
        lemma_member_has_group(groups.drop_last(), j);
        let (k, i) = choose|k: int, i: int|
            0 <= k < groups.drop_last().len() && 0 <= i < groups.drop_last()[k].members@.len() && (
            #[trigger] groups.drop_last()[k].members@[i]) == ahead[j];
        assert(groups[k].members@[i] == members_of(groups)[j]);
    } else {
        let k = groups.len() - 1;
        let i = j - ahead.len();
        assert(groups[k].members@[i] == members_of(groups)[j]);
    }
}

/// The day of a group is the day of a file that the groups hold.
pub proof fn lemma_group_has_file_of_its_day(groups: Seq<DayGroup>, k: int)
    requires
        0 <= k < groups.len(),
        forall|j: int| 0 <= j < groups.len() ==> is_day_group(#[trigger] groups[j]),
    ensures
        exists|n: int|
            0 <= n < members_of(groups).len() && (#[trigger] members_of(groups)[n]).day
                == groups[k].day,
    decreases groups.len(),
{
    let ahead = members_of(groups.drop_last());
    assert(is_day_group(groups[groups.len() - 1]));
    if k == groups.len() - 1 {
        assert(members_of(groups)[ahead.len() as int] == groups[k].members@[0]);
    } else {
        assert forall|j: int| 0 <= j < groups.drop_last().len() implies is_day_group(
            #[trigger] groups.drop_last()[j],
        ) by {
            assert(groups.drop_last()[j] == groups[j]);
        }
        lemma_group_has_file_of_its_day(groups.drop_last(), k);
        let n = choose|n: int| 0 <= n < ahead.len() && (#[trigger] ahead[n]).day == groups[k].day;
        assert(members_of(groups)[n] == ahead[n]);
    }
}

/// The last file that the groups hold is the last member of the last group.
proof fn lemma_last_member(groups: Seq<DayGroup>)
    requires
        groups.len() > 0,
        is_day_group(groups.last()),
    ensures
        members_of(groups).len() >= groups.last().members@.len(),
        members_of(groups).subrange(
            members_of(groups).len() - groups.last().members@.len(),
            members_of(groups).len() as int,
        ) == groups.last().members@,
        members_of(groups).take(members_of(groups).len() - groups.last().members@.len())
            == members_of(groups.drop_last()),
{
    let all = members_of(groups);
    let ahead = members_of(groups.drop_last());
    let last = groups.last().members@;
    assert(all == ahead + last);
    assert(all.subrange(all.len() - last.len(), all.len() as int) =~= last);
    assert(all.take(all.len() - last.len()) =~= ahead);
}

/// A sequence of files has one grouping by day only: two groupings have the
/// same number of groups, and each group has the day and the members of its
/// counterpart.
pub proof fn lemma_grouping_is_unique(a: Seq<DayGroup>, b: Seq<DayGroup>, files: Seq<DatedFile>)
    requires
        is_day_grouping(a, files),
        is_day_grouping(b, files),
    ensures
        a.len() == b.len(),
        forall|k: int|
            0 <= k < a.len() ==> (#[trigger] a[k]).day == b[k].day && a[k].members@
                == b[k].members@,
    decreases a.len(),
{
    lemma_groups_are_not_empty(a);
    lemma_groups_are_not_empty(b);
    if a.len() == 0 || b.len() == 0 {
        assert(files.len() == 0);
    } else {
        let x = a.last();
        let y = b.last();
        assert(is_day_group(a[a.len() - 1]) && is_day_group(b[b.len() - 1]));
        lemma_last_member(a);
        lemma_last_member(b);
        let n = files.len() as int;
        let lx = x.members@.len() as int;
        let ly = y.members@.len() as int;
        // Both last groups end with the last file, so they are of its day.
        assert(files[n - 1] == x.members@[lx - 1]);
        assert(files[n - 1] == y.members@[ly - 1]);
        assert(x.day == y.day);
        // Were one of them longer, it would reach into the group ahead of the
        // other, which is of another day.
        if lx < ly {
            lemma_reaches_too_far(a, y.members@, y.day);
        }
        if ly < lx {
            lemma_reaches_too_far(b, x.members@, x.day);
        }
        assert(x.members@ == y.members@);
        let front_a = a.drop_last();
        let front_b = b.drop_last();
        assert(neighbours_differ(front_a)) by {
            assert forall|k: int, l: int|
                0 <= k && l == k + 1 && l < front_a.len() implies (#[trigger] front_a[k]).day != (
            #[trigger] front_a[l]).day by {
                assert(front_a[k] == a[k] && front_a[l] == a[l]);
            }
        }
        assert(neighbours_differ(front_b)) by {
            assert forall|k: int, l: int|
                0 <= k && l == k + 1 && l < front_b.len() implies (#[trigger] front_b[k]).day != (
            #[trigger] front_b[l]).day by {
                assert(front_b[k] == b[k] && front_b[l] == b[l]);
            }
        }
        assert forall|k: int| 0 <= k < front_a.len() implies is_day_group(
            #[trigger] front_a[k],
        ) by {
            assert(front_a[k] == a[k]);
        }
        assert forall|k: int| 0 <= k < front_b.len() implies is_day_group(
            #[trigger] front_b[k],
        ) by {
            assert(front_b[k] == b[k]);
        }
        lemma_grouping_is_unique(front_a, front_b, files.take(n - lx));
        assert forall|k: int| 0 <= k < a.len() implies (#[trigger] a[k]).day == b[k].day
            && a[k].members@ == b[k].members@ by {
            if k < a.len() - 1 {
                assert(front_a[k] == a[k] && front_b[k] == b[k]);
            }
        }
    }
}

/// A run of files of one day at the end of the files that the groups hold
/// cannot be longer than the last group, if it is of that group's day: the
/// group ahead is of another day.
proof fn lemma_reaches_too_far(groups: Seq<DayGroup>, run: Seq<DatedFile>, day: CalendarDay)
    requires
        groups.len() > 0,
        forall|k: int| 0 <= k < groups.len() ==> is_day_group(#[trigger] groups[k]),
        neighbours_differ(groups),
        groups.last().day == day,
        forall|i: int| 0 <= i < run.len() ==> (#[trigger] run[i]).day == day,
        run.len() <= members_of(groups).len(),
        members_of(groups).subrange(
            members_of(groups).len() - run.len(),
            members_of(groups).len() as int,
        ) == run,
    ensures
        run.len() <= groups.last().members@.len(),
{
    let all = members_of(groups);
    let last = groups.last().members@;
    if run.len() > last.len() {
        let front = groups.drop_last();
        let ahead = members_of(front);
        assert(all == ahead + last);
        // The file just ahead of the last group belongs to the run.
        let at = all.len() - last.len() - 1;
        let f = all[at];
        assert(f == run[at - (all.len() - run.len())]);
        assert(f.day == day);
        // It is the last member of the group ahead.
        assert(ahead.len() > 0);
        assert(front.len() > 0);
        assert(is_day_group(groups[groups.len() - 1]) && is_day_group(groups[groups.len() - 2]));
        assert(front.last() == groups[groups.len() - 2]);
        lemma_last_member(front);
        let before = front.last().members@;
        assert(ahead[ahead.len() - 1] == before[before.len() - 1]);
        assert(f == ahead[ahead.len() - 1]);
        assert(groups[groups.len() - 2].day == day);
        assert(groups[groups.len() - 2].day != groups[groups.len() - 1].day);
    }
}

/// The file's day is a day of the calendar in a year of at most four digits,
/// and it can be the day of the file's modification in some time zone.
pub open spec fn day_fits(f: DatedFile) -> bool {
    f.day.wf() && f.day.fits(f.record.mod_time)
}

/// Gives each file the day that stands at its place in `days`.
///
/// There are dated files exactly if there is one day for each file: as many
/// days as files, and none of them missing.
pub fn attach_days(files: Vec<FileRecord>, days: Vec<Option<CalendarDay>>) -> (r: Option<
    Vec<DatedFile>,
>)
    ensures
        r is Some <==> files@.len() == days@.len() && forall|i: int|
            0 <= i < days@.len() ==> (#[trigger] days@[i]) is Some,
        r matches Some(dated) ==> dated@.len() == files@.len() && forall|i: int|
            0 <= i < dated@.len() ==> (#[trigger] dated@[i]).record == files@[i] && dated@[i].day
                == days@[i]->Some_0,
{
    if files.len() != days.len() {
        return None;
    }
    let ghost all = files@;
    let mut dated: Vec<DatedFile> = Vec::new();
    let mut at: usize = 0;
    for record in it: files
        invariant
            it.seq() == all,
            all.len() == days@.len(),
            at == it.index(),
            dated@.len() == at,
            forall|i: int| 0 <= i < at ==> (#[trigger] days@[i]) is Some,
            forall|i: int|
                0 <= i < dated@.len() ==> (#[trigger] dated@[i]).record == all[i] && dated@[i].day
                    == days@[i]->Some_0,
    {
        let day = match days[at] {
            Some(day) => day,
            None => {
                return None;
            },
        };
        dated.push(DatedFile { record, day });
        assert(at < days.len());
        at = at + 1;
    }
    Some(dated)
}

/// Looks up the local calendar day of each file.
///
/// `None` where the time zone has no day for a file, or one with a year of
/// more than four digits. The days that come back are the time zone's
/// answers, each for the modification time of its own file; the files are
/// the ones given, in their order.
pub fn date_files(files: Vec<FileRecord>) -> (r: Option<Vec<DatedFile>>)
    ensures
        r matches Some(dated) ==> {
            &&& records_of(dated@) == files@
            &&& forall|i: int| 0 <= i < dated@.len() ==> day_fits(#[trigger] dated@[i])
        },
        files@.len() == 0 ==> r is Some,
{
    let mut days: Vec<Option<CalendarDay>> = Vec::new();
    let mut i: usize = 0;
    while i < files.len()
        invariant
            i <= files.len(),
            days@.len() == i,
            forall|k: int|
                0 <= k < i ==> ((#[trigger] days@[k]) matches Some(d) ==> d.wf() && d.fits(
                    files@[k].mod_time,
                )),
        decreases files.len() - i,
    {
        days.push(local_day(&files[i].mod_time));
        i = i + 1;
    }
    let ghost all = files@;
    let ghost given = days@;
    match attach_days(files, days) {
        Some(dated) => {
            proof {
                assert(records_of(dated@) =~= all);
                assert forall|k: int| 0 <= k < dated@.len() implies day_fits(
                    #[trigger] dated@[k],
                ) by {
                    assert(given[k] is Some);
                }
            }
            Some(dated)
        },
        None => None,
    }
}

/// Cuts the files into groups of one day each. A group ends where the next
/// file is of another day, and the last group ends with the files; no files
/// give no group.
pub fn group_by_day(files: Vec<DatedFile>) -> (groups: Vec<DayGroup>)
    ensures
        is_day_grouping(groups@, files@),
{
    let ghost all = files@;
    let mut groups: Vec<DayGroup> = Vec::new();
    let mut current: Vec<DatedFile> = Vec::new();
    for file in it: files
        invariant
            it.seq() == all,
            members_of(groups@) + current@ == all.take(it.index() as int),
            forall|k: int| 0 <= k < groups@.len() ==> is_day_group(#[trigger] groups@[k]),
            neighbours_differ(groups@),
            forall|i: int| 0 <= i < current@.len() ==> (#[trigger] current@[i]).day == current@[0].day,
            groups@.len() > 0 ==> current@.len() > 0 && groups@.last().day != current@[0].day,
    {
        let ghost groups_before = groups@;
        let ghost current_before = current@;
        if current.len() > 0 && !is_same_day(&file.day, &current[0].day) {
            let day = current[0].day;
            let closed = DayGroup { day, members: current };
            proof {
                lemma_members_of_push(groups@, closed);
            }
            groups.push(closed);
            current = Vec::new();
        }
        current.push(file);
        proof {
            assert(all.take(it.index() + 1) =~= all.take(it.index() as int).push(file));
            assert(members_of(groups@) + current@ =~= (members_of(groups_before)
                + current_before).push(file));
        }
    }
    if current.len() > 0 {
        let day = current[0].day;
        let closed = DayGroup { day, members: current };
        proof {
            lemma_members_of_push(groups@, closed);
        }
        groups.push(closed);
    }
    proof {
        assert(all.take(all.len() as int) =~= all);
        assert(members_of(groups@) =~= all);
    }
    groups
}

} // verus!
