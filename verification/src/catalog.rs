//! The files of one directory, oldest first, without the bundles of earlier
//! runs.

use crate::instant::Timestamp;
use crate::sorting::sort_by_time;
use vstd::prelude::*;
use vstd::string::*;

verus! {

/// A regular file of the directory: its name in that directory and the time
/// of its last modification.
#[derive(Clone, Debug, PartialEq, Eq)]
pub struct FileRecord {
    pub name: String,
    pub mod_time: Timestamp,
}

/// The extension that marks a file as a bundle.
pub open spec fn bundle_suffix() -> Seq<char> {
    seq!['.', 'z', 'i', 'p']
}

/// The name ends in the bundle extension.
pub open spec fn is_bundle_name(name: Seq<char>) -> bool {
    name.len() >= 4 && name.subrange(name.len() - 4, name.len() as int) == bundle_suffix()
}

/// The record is a bundle of an earlier run.
pub open spec fn is_bundle(r: FileRecord) -> bool {
    is_bundle_name(r.name@)
}

/// The record is a file that rotation looks at.
pub open spec fn is_rotated(r: FileRecord) -> bool {
    !is_bundle_name(r.name@)
}

/// The bundles among the records, in their order.
pub open spec fn bundles_of(s: Seq<FileRecord>) -> Seq<FileRecord> {
    s.filter(|r: FileRecord| is_bundle(r))
}

/// The records without the bundles, in their order.
pub open spec fn rotated_of(s: Seq<FileRecord>) -> Seq<FileRecord> {
    s.filter(|r: FileRecord| is_rotated(r))
}

/// No record is modified before one that stands ahead of it.
pub open spec fn sorted_by_time(s: Seq<FileRecord>) -> bool {
    forall|i: int, j: int| 0 <= i <= j < s.len() ==> s[i].mod_time.at_or_before(s[j].mod_time)
}

/// The records modified at exactly `t`, in their order.
pub open spec fn modified_at(s: Seq<FileRecord>, t: Timestamp) -> Seq<FileRecord> {
    s.filter(|r: FileRecord| r.mod_time == t)
}

/// `sorted` holds the records of `input` oldest first, and records of the same
/// instant in the order they have in `input`.
///
/// For each instant the two sequences hold the same records in the same
/// order. That makes `sorted` a rearrangement of `input`, and the only one
/// that is sorted and keeps ties in place.
pub open spec fn is_time_ordering_of(sorted: Seq<FileRecord>, input: Seq<FileRecord>) -> bool {
    &&& sorted_by_time(sorted)
    &&& forall|t: Timestamp| #[trigger] modified_at(sorted, t) == modified_at(input, t)
}

/// The files of a directory as rotation sees them.
#[derive(Clone, Debug, PartialEq, Eq)]
pub struct Catalog {
    /// The files to classify, oldest first.
    pub files: Vec<FileRecord>,
    /// The bundles that earlier runs left, in the order of the listing.
    pub bundles: Vec<FileRecord>,
}

/// Whether the name ends in `.zip`.
pub fn has_bundle_name(name: &str) -> (r: bool)
    ensures
        r == is_bundle_name(name@),
{
    let n: usize = name.unicode_len();
    if n < 4 {
        return false;
    }
    let found = name.get_char(n - 4) == '.' && name.get_char(n - 3) == 'z' && name.get_char(n - 2)
        == 'i' && name.get_char(n - 1) == 'p';
    proof {
        let tail = name@.subrange(n - 4, n as int);
        if found {
            assert(tail =~= bundle_suffix());
        } else {
            assert(tail[0] == name@[n - 4]);
            assert(tail[1] == name@[n - 3]);
            assert(tail[2] == name@[n - 2]);
            assert(tail[3] == name@[n - 1]);
        }
    }
    found
}

/// Parts the listing of a directory into bundles and other files, keeping the
/// order of each.
pub fn split_listing(entries: Vec<FileRecord>) -> (r: (Vec<FileRecord>, Vec<FileRecord>))
    ensures
        r.0@ == rotated_of(entries@),
        r.1@ == bundles_of(entries@),
{
    let mut files: Vec<FileRecord> = Vec::new();
    let mut bundles: Vec<FileRecord> = Vec::new();
    let ghost all = entries@;
    proof {
        reveal(Seq::filter);
    }
    for entry in it: entries
        invariant
            it.seq() == all,
            files@ == rotated_of(all.take(it.index() as int)),
            bundles@ == bundles_of(all.take(it.index() as int)),
    {
        proof {
            let seen = all.take(it.index() as int);
            assert(all.take(it.index() + 1) =~= seen.push(entry));
            seen.lemma_filter_push(entry, |r: FileRecord| is_rotated(r));
            seen.lemma_filter_push(entry, |r: FileRecord| is_bundle(r));
        }
        if has_bundle_name(entry.name.as_str()) {
            bundles.push(entry);
        } else {
            files.push(entry);
        }
    }
    proof {
        assert(all.take(all.len() as int) =~= all);
    }
    (files, bundles)
}

/// Makes the catalog of a directory from its listing: the bundles of earlier
/// runs are set aside, the other files are put in the order of their
/// modification times, ties in the order of the listing.
pub fn build_catalog(entries: Vec<FileRecord>) -> (catalog: Catalog)
    ensures
        is_time_ordering_of(catalog.files@, rotated_of(entries@)),
        catalog.bundles@ == bundles_of(entries@),
{
    let (files, bundles) = split_listing(entries);
    Catalog { files: sort_by_time(files), bundles }
}

/// What a filter keeps is in the sequence and passes the filter.
pub proof fn lemma_filter_is_part<A>(s: Seq<A>, keep: spec_fn(A) -> bool, x: A)
    requires
        s.filter(keep).contains(x),
    ensures
        s.contains(x),
        keep(x),
    decreases s.len(),
{
    reveal(Seq::filter);
    if s.len() > 0 {
        let rest = s.drop_last();
        let kept = s.filter(keep);
        let i = choose|i: int| 0 <= i < kept.len() && kept[i] == x;
        if keep(s.last()) && i == kept.len() - 1 {
            assert(s[s.len() - 1] == x);
        } else {
            assert(rest.filter(keep)[i] == x);
            lemma_filter_is_part(rest, keep, x);
            let j = choose|j: int| 0 <= j < rest.len() && rest[j] == x;
            assert(s[j] == x);
        }
    }
}

/// A filter that every element passes keeps the sequence as it is.
pub proof fn lemma_filter_keeps_all<A>(s: Seq<A>, keep: spec_fn(A) -> bool)
    requires
        forall|i: int| 0 <= i < s.len() ==> keep(#[trigger] s[i]),
    ensures
        s.filter(keep) == s,
    decreases s.len(),
{
    reveal(Seq::filter);
    if s.len() > 0 {
        let rest = s.drop_last();
        assert forall|i: int| 0 <= i < rest.len() implies keep(#[trigger] rest[i]) by {
            assert(rest[i] == s[i]);
        }
        lemma_filter_keeps_all(rest, keep);
        assert(keep(s[s.len() - 1]));
        assert(rest.push(s.last()) =~= s);
    }
}

/// The files that rotation looks at are the listed files that are no
/// bundles.
pub proof fn lemma_rotated_files(entries: Seq<FileRecord>, x: FileRecord)
    ensures
        rotated_of(entries).contains(x) <==> entries.contains(x) && is_rotated(x),
{
    let keep = |r: FileRecord| is_rotated(r);
    if rotated_of(entries).contains(x) {
        lemma_filter_is_part(entries, keep, x);
    }
    if entries.contains(x) && is_rotated(x) {
        let i = choose|i: int| 0 <= i < entries.len() && entries[i] == x;
        entries.lemma_filter_contains(keep, i);
    }
}

/// Sorting neither adds nor loses a file.
pub proof fn lemma_ordering_keeps_files(
    sorted: Seq<FileRecord>,
    input: Seq<FileRecord>,
    x: FileRecord,
)
    requires
        is_time_ordering_of(sorted, input),
    ensures
        sorted.contains(x) <==> input.contains(x),
{
    let at = |r: FileRecord| r.mod_time == x.mod_time;
    assert(modified_at(sorted, x.mod_time) == modified_at(input, x.mod_time));
    if sorted.contains(x) {
        let i = choose|i: int| 0 <= i < sorted.len() && sorted[i] == x;
        sorted.lemma_filter_contains(at, i);
        lemma_filter_is_part(input, at, x);
    }
    if input.contains(x) {
        let i = choose|i: int| 0 <= i < input.len() && input[i] == x;
        input.lemma_filter_contains(at, i);
        lemma_filter_is_part(sorted, at, x);
    }
}

/// A sequence without a record of an instant has nothing to show for that
/// instant.
pub proof fn lemma_none_modified_at(s: Seq<FileRecord>, t: Timestamp)
    requires
        forall|i: int| 0 <= i < s.len() ==> s[i].mod_time != t,
    ensures
        modified_at(s, t) == Seq::<FileRecord>::empty(),
    decreases s.len(),
{
    reveal(Seq::filter);
    if s.len() > 0 {
        lemma_none_modified_at(s.drop_last(), t);
    }
}

/// The records of one instant hold each record of that instant as often as
/// the whole sequence does.
proof fn lemma_modified_at_keeps_count(s: Seq<FileRecord>, x: FileRecord)
    ensures
        modified_at(s, x.mod_time).to_multiset().count(x) == s.to_multiset().count(x),
    decreases s.len(),
{
    broadcast use vstd::seq_lib::to_multiset_build;

    let at = |r: FileRecord| r.mod_time == x.mod_time;
    if s.len() == 0 {
        lemma_none_modified_at(s, x.mod_time);
        assert(s =~= Seq::<FileRecord>::empty());
    } else {
        let rest = s.drop_last();
        let last = s.last();
        lemma_modified_at_keeps_count(rest, x);
        assert(s =~= rest.push(last));
        rest.lemma_filter_push(last, at);
    }
}

/// Sorting rearranges the files: each file is in the result as often as in
/// the input.
pub proof fn lemma_ordering_is_rearrangement(sorted: Seq<FileRecord>, input: Seq<FileRecord>)
    requires
        is_time_ordering_of(sorted, input),
    ensures
        sorted.to_multiset() == input.to_multiset(),
        sorted.len() == input.len(),
{
    assert forall|x: FileRecord|
        sorted.to_multiset().count(x) == input.to_multiset().count(x) by {
        assert(modified_at(sorted, x.mod_time) == modified_at(input, x.mod_time));
        lemma_modified_at_keeps_count(sorted, x);
        lemma_modified_at_keeps_count(input, x);
    }
    assert(sorted.to_multiset() =~= input.to_multiset());
    sorted.to_multiset_ensures();
    input.to_multiset_ensures();
}

/// Two sorted sequences that agree on the records of every instant are the
/// same sequence.
proof fn lemma_sorted_and_tied_alike(a: Seq<FileRecord>, b: Seq<FileRecord>)
    requires
        sorted_by_time(a),
        sorted_by_time(b),
        forall|t: Timestamp| #[trigger] modified_at(a, t) == modified_at(b, t),
    ensures
        a == b,
    decreases a.len(),
{
    lemma_ordering_is_rearrangement(a, b);
    if a.len() == 0 {
        assert(a =~= b);
    } else {
        let x = a.last();
        let y = b.last();
        let front_a = a.drop_last();
        let front_b = b.drop_last();
        assert(a =~= front_a.push(x));
        assert(b =~= front_b.push(y));
        // The last record of each is among the records of the other, so neither
        // is later than the other.
        assert(b.contains(y)) by {
            assert(b[b.len() - 1] == y);
        }
        assert(a.contains(x)) by {
            assert(a[a.len() - 1] == x);
        }
        lemma_ordering_keeps_files(a, b, y);
        lemma_ordering_keeps_files(a, b, x);
        let i = choose|i: int| 0 <= i < a.len() && a[i] == y;
        let j = choose|j: int| 0 <= j < b.len() && b[j] == x;
        assert(a[i].mod_time.at_or_before(a[a.len() - 1].mod_time));
        assert(b[j].mod_time.at_or_before(b[b.len() - 1].mod_time));
        assert(x.mod_time == y.mod_time);
        assert(x == y) by {
            let t = x.mod_time;
            let at = |r: FileRecord| r.mod_time == t;
            front_a.lemma_filter_push(x, at);
            front_b.lemma_filter_push(y, at);
            assert(modified_at(a, t) == modified_at(b, t));
            let tied_a = modified_at(front_a, t).push(x);
            let tied_b = modified_at(front_b, t).push(y);
            assert(modified_at(a, t) == tied_a);
            assert(modified_at(b, t) == tied_b);
            assert(tied_a.last() == x && tied_b.last() == y);
        }
        assert forall|t: Timestamp| #[trigger]
            modified_at(front_a, t) == modified_at(front_b, t) by {
            let at = |r: FileRecord| r.mod_time == t;
            front_a.lemma_filter_push(x, at);
            front_b.lemma_filter_push(x, at);
            assert(modified_at(a, t) == modified_at(b, t));
            if t == x.mod_time {
                let tied_a = modified_at(front_a, t).push(x);
                let tied_b = modified_at(front_b, t).push(x);
                assert(modified_at(a, t) == tied_a);
                assert(modified_at(b, t) == tied_b);
                assert(tied_a.drop_last() =~= modified_at(front_a, t));
                assert(tied_b.drop_last() =~= modified_at(front_b, t));
            }
        }
        lemma_sorted_and_tied_alike(front_a, front_b);
    }
}

/// There is one way only to put files in the order of their modification
/// times with ties in place.
pub proof fn lemma_ordering_is_unique(a: Seq<FileRecord>, b: Seq<FileRecord>, input: Seq<FileRecord>)
    requires
        is_time_ordering_of(a, input),
        is_time_ordering_of(b, input),
    ensures
        a == b,
{
    assert forall|t: Timestamp| #[trigger] modified_at(a, t) == modified_at(b, t) by {
        assert(modified_at(a, t) == modified_at(input, t));
        assert(modified_at(b, t) == modified_at(input, t));
    }
    lemma_sorted_and_tied_alike(a, b);
}

} // verus!
