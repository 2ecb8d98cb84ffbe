//! The three age bands of a sorted catalog.

use crate::catalog::{sorted_by_time, FileRecord};
use crate::cutoffs::Cutoffs;
use crate::instant::Timestamp;
use vstd::prelude::*;

verus! {

/// Where the bands of a catalog of `n` files begin and end: the expired files
/// are those at `0..start`, the archivable ones at `start..end`, the fresh ones
/// at `end..n`.
#[derive(Clone, Copy, Debug, PartialEq, Eq, Structural)]
pub struct PartitionRanges {
    pub start: usize,
    pub end: usize,
}

impl PartitionRanges {
    /// The files to delete.
    pub open spec fn expired(self, s: Seq<FileRecord>) -> Seq<FileRecord> {
        s.subrange(0, self.start as int)
    }

    /// The files to bundle.
    pub open spec fn archivable(self, s: Seq<FileRecord>) -> Seq<FileRecord> {
        s.subrange(self.start as int, self.end as int)
    }

    /// The files to leave alone.
    pub open spec fn fresh(self, s: Seq<FileRecord>) -> Seq<FileRecord> {
        s.subrange(self.end as int, s.len() as int)
    }
}

/// `p` parts the records from index `from` on: those ahead of `p` are modified
/// before `t`, those from `p` on are not.
pub open spec fn is_partition_point(s: Seq<FileRecord>, from: int, t: Timestamp, p: int) -> bool {
    &&& from <= p <= s.len()
    &&& forall|i: int| from <= i < p ==> (#[trigger] s[i]).mod_time.precedes(t)
    &&& forall|i: int| p <= i < s.len() ==> !(#[trigger] s[i]).mod_time.precedes(t)
}

/// The records ahead of `start` are those modified before the delete
/// boundary, and of the others those ahead of `end` are the ones modified
/// before the archive boundary.
pub open spec fn parts_into_bands(s: Seq<FileRecord>, c: Cutoffs, start: int, end: int) -> bool {
    &&& is_partition_point(s, 0, c.delete_from, start)
    &&& is_partition_point(s, start, c.archive_from, end)
}

/// `r` parts the records into the three bands that the boundaries define.
pub open spec fn is_partition(s: Seq<FileRecord>, c: Cutoffs, r: PartitionRanges) -> bool {
    parts_into_bands(s, c, r.start as int, r.end as int)
}

/// Finds by bisection the first record at or after index `from` that is not
/// modified before `bound`; the number of records if there is none.
pub fn partition_point(records: &Vec<FileRecord>, from: usize, bound: &Timestamp) -> (p: usize)
    requires
        sorted_by_time(records@),
        from <= records.len(),
    ensures
        is_partition_point(records@, from as int, *bound, p as int),
{
    let mut low: usize = from;
    let mut high: usize = records.len();
    while low < high
        invariant
            from <= low <= high <= records.len(),
            sorted_by_time(records@),
            forall|i: int| from <= i < low ==> (#[trigger] records@[i]).mod_time.precedes(*bound),
            forall|i: int|
                high <= i < records.len() ==> !(#[trigger] records@[i]).mod_time.precedes(*bound),
        decreases high - low,
    {
        let mid: usize = low + (high - low) / 2;
        if records[mid].mod_time.is_before(bound) {
            assert forall|i: int| from <= i < mid + 1 implies (#[trigger] records@[i]).mod_time.precedes(
                *bound,
            ) by {
                assert(records@[i].mod_time.at_or_before(records@[mid as int].mod_time));
            }
            low = mid + 1;
        } else {
            assert forall|i: int| mid <= i < records.len() implies !(#[trigger] records@[
                i
            ]).mod_time.precedes(*bound) by {
                assert(records@[mid as int].mod_time.at_or_before(records@[i].mod_time));
            }
            high = mid;
        }
    }
    low
}

/// Parts a catalog that is sorted by modification time into its expired,
/// archivable and fresh bands.
///
/// With no file at or after the delete boundary there is nothing left to
/// search, and the archivable band is empty at the end of the catalog.
pub fn partition(records: &Vec<FileRecord>, cutoffs: &Cutoffs) -> (r: PartitionRanges)
    requires
        sorted_by_time(records@),
    ensures
        is_partition(records@, *cutoffs, r),
{
    let start: usize = partition_point(records, 0, &cutoffs.delete_from);
    let end: usize = if start < records.len() {
        partition_point(records, start, &cutoffs.archive_from)
    } else {
        start
    };
    PartitionRanges { start, end }
}

/// The three bands, laid end to end, are the catalog: every file is in exactly
/// one of them, and in the place it had.
pub proof fn lemma_partition_covers(s: Seq<FileRecord>, c: Cutoffs, r: PartitionRanges)
    requires
        is_partition(s, c, r),
    ensures
        r.expired(s) + r.archivable(s) + r.fresh(s) == s,
        r.expired(s).len() + r.archivable(s).len() + r.fresh(s).len() == s.len(),
{
    assert(r.expired(s) + r.archivable(s) + r.fresh(s) =~= s);
}

/// A file is in the expired band exactly if it is modified before the delete
/// boundary.
pub proof fn lemma_expired_band(s: Seq<FileRecord>, c: Cutoffs, r: PartitionRanges, i: int)
    requires
        is_partition(s, c, r),
        0 <= i < s.len(),
    ensures
        i < r.start <==> s[i].mod_time.precedes(c.delete_from),
{
}

/// A file is in the archivable band exactly if it is modified at or after the
/// delete boundary and before the archive boundary.
pub proof fn lemma_archivable_band(s: Seq<FileRecord>, c: Cutoffs, r: PartitionRanges, i: int)
    requires
        is_partition(s, c, r),
        0 <= i < s.len(),
    ensures
        r.start <= i < r.end <==> c.delete_from.at_or_before(s[i].mod_time)
            && s[i].mod_time.precedes(c.archive_from),
{
}

/// With the delete boundary not after the archive boundary, a file is in the
/// fresh band exactly if it is modified at or after the archive boundary.
pub proof fn lemma_fresh_band(s: Seq<FileRecord>, c: Cutoffs, r: PartitionRanges, i: int)
    requires
        c.wf(),
        is_partition(s, c, r),
        0 <= i < s.len(),
    ensures
        r.end <= i <==> c.archive_from.at_or_before(s[i].mod_time),
{
}

/// The boundaries allow one partition of a catalog only.
pub proof fn lemma_partition_unique(
    s: Seq<FileRecord>,
    c: Cutoffs,
    r1: PartitionRanges,
    r2: PartitionRanges,
)
    requires
        is_partition(s, c, r1),
        is_partition(s, c, r2),
    ensures
        r1 == r2,
{
    if r1.start < r2.start {
        assert(s[r1.start as int].mod_time.precedes(c.delete_from));
    }
    if r2.start < r1.start {
        assert(s[r2.start as int].mod_time.precedes(c.delete_from));
    }
    if r1.end < r2.end {
        assert(s[r1.end as int].mod_time.precedes(c.archive_from));
    }
    if r2.end < r1.end {
        assert(s[r2.end as int].mod_time.precedes(c.archive_from));
    }
}

/// What a run leaves in place is fresh at the next run with the same
/// boundaries: the catalog of the fresh band has no expired and no archivable
/// file.
pub proof fn lemma_fresh_band_is_settled(s: Seq<FileRecord>, c: Cutoffs, r: PartitionRanges)
    requires
        c.wf(),
        is_partition(s, c, r),
    ensures
        is_partition(r.fresh(s), c, PartitionRanges { start: 0, end: 0 }),
{
    let rest = r.fresh(s);
    assert forall|i: int| 0 <= i < rest.len() implies !(#[trigger] rest[i]).mod_time.precedes(
        c.archive_from,
    ) && !rest[i].mod_time.precedes(c.delete_from) by {
        assert(rest[i] == s[r.end + i]);
    }
}

} // verus!
