//! Sorting files by modification time.
//!
//! A merge sort that moves its records and never copies one: each merge takes
//! the newest record off the end of one of its inputs, and the run it builds
//! is turned round at the end.

use crate::catalog::{
    is_time_ordering_of, lemma_none_modified_at, modified_at, sorted_by_time, FileRecord,
};
use crate::instant::Timestamp;
use vstd::prelude::*;

verus! {

/// Sorts the records by modification time, oldest first. Records of the same
/// instant keep the order in which they came.
pub fn sort_by_time(files: Vec<FileRecord>) -> (sorted: Vec<FileRecord>)
    ensures
        is_time_ordering_of(sorted@, files@),
    decreases files@.len(),
{
    let n: usize = files.len();
    if n <= 1 {
        return files;
    }
    let ghost all = files@;
    let mut left = files;
    let right = left.split_off(n / 2);
    let ghost left_half = left@;
    let ghost right_half = right@;
    let left_sorted = sort_by_time(left);
    let right_sorted = sort_by_time(right);
    let merged = merge_by_time(left_sorted, right_sorted);
    proof {
        assert(all =~= left_half + right_half);
        assert forall|t: Timestamp| #[trigger]
            modified_at(merged@, t) == modified_at(all, t) by {
            Seq::filter_distributes_over_add(
                left_half,
                right_half,
                |r: FileRecord| r.mod_time == t,
            );
            assert(modified_at(left_sorted@, t) == modified_at(left_half, t));
            assert(modified_at(right_sorted@, t) == modified_at(right_half, t));
        }
    }
    merged
}

/// Merges two sorted runs into one; among records of the same instant those
/// of `left` come first.
fn merge_by_time(left: Vec<FileRecord>, right: Vec<FileRecord>) -> (merged: Vec<FileRecord>)
    requires
        sorted_by_time(left@),
        sorted_by_time(right@),
    ensures
        sorted_by_time(merged@),
        forall|t: Timestamp| #[trigger]
            modified_at(merged@, t) == modified_at(left@, t) + modified_at(right@, t),
{
    let ghost left_all = left@;
    let ghost right_all = right@;
    let mut left = left;
    let mut right = right;
    let mut stack: Vec<FileRecord> = Vec::new();
    proof {
        assert forall|t: Timestamp| #[trigger]
            merge_tally(left@, right@, stack@, t) == modified_at(left_all, t) + modified_at(
                right_all,
                t,
            ) by {
            assert(stack@.reverse() =~= Seq::<FileRecord>::empty());
            lemma_none_modified_at(Seq::<FileRecord>::empty(), t);
            assert(merge_tally(left@, right@, stack@, t) =~= modified_at(left_all, t)
                + modified_at(right_all, t));
        }
    }
    while left.len() > 0 || right.len() > 0
        invariant
            sorted_by_time(left@),
            sorted_by_time(right@),
            sorted_newest_first(stack@),
            forall|i: int, k: int|
                0 <= i < left@.len() && 0 <= k < stack@.len() ==> left@[i].mod_time.at_or_before(
                    stack@[k].mod_time,
                ),
            forall|i: int, k: int|
                0 <= i < right@.len() && 0 <= k < stack@.len() ==> right@[i].mod_time.at_or_before(
                    stack@[k].mod_time,
                ),
            forall|t: Timestamp| #[trigger]
                merge_tally(left@, right@, stack@, t) == modified_at(left_all, t) + modified_at(
                    right_all,
                    t,
                ),
        decreases left.len() + right.len(),
    {
        let from_left = if right.len() == 0 {
            true
        } else if left.len() == 0 {
            false
        } else {
            right[right.len() - 1].mod_time.is_before(&left[left.len() - 1].mod_time)
        };
        let ghost left_before = left@;
        let ghost right_before = right@;
        let ghost stack_before = stack@;
        if from_left {
            let x = left.pop().unwrap();
            proof {
                assert(left_before =~= left@.push(x));
                assert forall|i: int| 0 <= i < right@.len() implies right@[i].mod_time
                    != x.mod_time by {
                    assert(right@[i].mod_time.at_or_before(right@[right@.len() - 1].mod_time));
                }
                assert forall|t: Timestamp| #[trigger]
                    merge_tally(left@, right@, stack_before.push(x), t) == modified_at(left_all, t)
                        + modified_at(right_all, t) by {
                    lemma_move_from_left(left@, right@, stack_before, x, t);
                    assert(merge_tally(left_before, right_before, stack_before, t) == modified_at(
                        left_all,
                        t,
                    ) + modified_at(right_all, t));
                }
                assert forall|i: int| 0 <= i < right@.len() implies right@[i].mod_time.at_or_before(
                    x.mod_time,
                ) by {
                    assert(right@[i].mod_time.at_or_before(right@[right@.len() - 1].mod_time));
                }
                assert forall|i: int| 0 <= i < left@.len() implies left@[i].mod_time.at_or_before(
                    x.mod_time,
                ) by {
                    assert(left_before[i].mod_time.at_or_before(
                        left_before[left_before.len() - 1].mod_time,
                    ));
                }
                assert forall|k: int| 0 <= k < stack_before.len() implies x.mod_time.at_or_before(
                    stack_before[k].mod_time,
                ) by {
                    assert(left_before[left_before.len() - 1].mod_time.at_or_before(
                        stack_before[k].mod_time,
                    ));
                }
            }
            stack.push(x);
        } else {
            let x = right.pop().unwrap();
            proof {
                assert(right_before =~= right@.push(x));
                assert forall|t: Timestamp| #[trigger]
                    merge_tally(left@, right@, stack_before.push(x), t) == modified_at(left_all, t)
                        + modified_at(right_all, t) by {
                    lemma_move_from_right(left@, right@, stack_before, x, t);
                    assert(merge_tally(left_before, right_before, stack_before, t) == modified_at(
                        left_all,
                        t,
                    ) + modified_at(right_all, t));
                }
                assert forall|i: int| 0 <= i < right@.len() implies right@[i].mod_time.at_or_before(
                    x.mod_time,
                ) by {
                    assert(right_before[i].mod_time.at_or_before(
                        right_before[right_before.len() - 1].mod_time,
                    ));
                }
                assert forall|i: int| 0 <= i < left@.len() implies left@[i].mod_time.at_or_before(
                    x.mod_time,
                ) by {
                    assert(left@[i].mod_time.at_or_before(left@[left@.len() - 1].mod_time));
                }
                assert forall|k: int| 0 <= k < stack_before.len() implies x.mod_time.at_or_before(
                    stack_before[k].mod_time,
                ) by {
                    assert(right_before[right_before.len() - 1].mod_time.at_or_before(
                        stack_before[k].mod_time,
                    ));
                }
            }
            stack.push(x);
        }
    }
    let ghost stack_end = stack@;
    let merged = reversed(stack);
    proof {
        assert forall|t: Timestamp| #[trigger]
            modified_at(merged@, t) == modified_at(left_all, t) + modified_at(right_all, t) by {
            lemma_none_modified_at(Seq::<FileRecord>::empty(), t);
            assert(left@ =~= Seq::<FileRecord>::empty());
            assert(right@ =~= Seq::<FileRecord>::empty());
            assert(merge_tally(left@, right@, stack_end, t) =~= modified_at(merged@, t));
        }
    }
    merged
}

/// The records in the opposite order.
fn reversed(records: Vec<FileRecord>) -> (r: Vec<FileRecord>)
    ensures
        r@ == records@.reverse(),
{
    let ghost all = records@;
    let mut rest = records;
    let mut r: Vec<FileRecord> = Vec::new();
    while rest.len() > 0
        invariant
            rest@ == all.take(rest@.len() as int),
            r@.len() + rest@.len() == all.len(),
            forall|i: int| 0 <= i < r@.len() ==> r@[i] == all[all.len() - 1 - i],
        decreases rest.len(),
    {
        let x = rest.pop().unwrap();
        r.push(x);
    }
    assert(r@ =~= all.reverse());
    r
}

/// No record is modified after one that stands ahead of it.
spec fn sorted_newest_first(s: Seq<FileRecord>) -> bool {
    forall|i: int, j: int| 0 <= i <= j < s.len() ==> s[j].mod_time.at_or_before(s[i].mod_time)
}

/// The records modified at `t` that a merge in progress holds: those still in
/// the two inputs, then those already moved to the stack, which holds the
/// newest record first.
spec fn merge_tally(
    left: Seq<FileRecord>,
    right: Seq<FileRecord>,
    stack: Seq<FileRecord>,
    t: Timestamp,
) -> Seq<FileRecord> {
    modified_at(left, t) + modified_at(right, t) + modified_at(stack.reverse(), t)
}

/// Of a single record the instant keeps the record or nothing.
proof fn lemma_modified_at_single(x: FileRecord, t: Timestamp)
    ensures
        modified_at(seq![x], t) == (if x.mod_time == t {
            seq![x]
        } else {
            Seq::<FileRecord>::empty()
        }),
{
    let none = Seq::<FileRecord>::empty();
    assert(seq![x] =~= none.push(x));
    none.lemma_filter_push(x, |r: FileRecord| r.mod_time == t);
    lemma_none_modified_at(none, t);
    assert(none.push(x) =~= seq![x]);
}

/// A record pushed on the stack stands first when the stack is turned round.
proof fn lemma_modified_at_stack_push(stack: Seq<FileRecord>, x: FileRecord, t: Timestamp)
    ensures
        modified_at(stack.push(x).reverse(), t) == modified_at(seq![x], t) + modified_at(
            stack.reverse(),
            t,
        ),
{
    assert(stack.push(x).reverse() =~= seq![x] + stack.reverse());
    Seq::filter_distributes_over_add(seq![x], stack.reverse(), |r: FileRecord| r.mod_time == t);
}

/// Moving the last record of the right input to the stack keeps the tally.
proof fn lemma_move_from_right(
    left: Seq<FileRecord>,
    right: Seq<FileRecord>,
    stack: Seq<FileRecord>,
    x: FileRecord,
    t: Timestamp,
)
    ensures
        merge_tally(left, right.push(x), stack, t) == merge_tally(left, right, stack.push(x), t),
{
    right.lemma_filter_push(x, |r: FileRecord| r.mod_time == t);
    lemma_modified_at_stack_push(stack, x, t);
    lemma_modified_at_single(x, t);
    assert(merge_tally(left, right.push(x), stack, t) =~= merge_tally(
        left,
        right,
        stack.push(x),
        t,
    ));
}

/// Moving the last record of the left input to the stack keeps the tally,
/// where the right input holds no record of the same instant.
proof fn lemma_move_from_left(
    left: Seq<FileRecord>,
    right: Seq<FileRecord>,
    stack: Seq<FileRecord>,
    x: FileRecord,
    t: Timestamp,
)
    requires
        forall|i: int| 0 <= i < right.len() ==> right[i].mod_time != x.mod_time,
    ensures
        merge_tally(left.push(x), right, stack, t) == merge_tally(left, right, stack.push(x), t),
{
    left.lemma_filter_push(x, |r: FileRecord| r.mod_time == t);
    lemma_modified_at_stack_push(stack, x, t);
    lemma_modified_at_single(x, t);
    if x.mod_time == t {
        lemma_none_modified_at(right, t);
    }
    assert(merge_tally(left.push(x), right, stack, t) =~= merge_tally(
        left,
        right,
        stack.push(x),
        t,
    ));
}

} // verus!
